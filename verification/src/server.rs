//! The tracker: a roster of peer addresses, in registration order, with the
//! request handling that mutates it. The accept loop that feeds it lines
//! lives outside the library.

use vstd::prelude::*;

use crate::codec::{
    decode_request_to_tracker, enc_addr_items, enc_request_to_tracker, encode_tracker_response,
    tok_bracket_close, tok_msg_invalid, tok_msg_registered, tok_peers_open,
};
use crate::requests::{PeerAddr, RequestToTracker, TrackerResponse};

verus! {

/// Maintains the peer roster. Answers `GetPeers`, accepts `RegisterAsPeer`.
pub struct Server {
    peerlist: Vec<PeerAddr>,
}

/// The roster a request sequence leaves behind when applied to `roster`:
/// every registered address appended in arrival order.
pub open spec fn roster_after(roster: Seq<PeerAddr>, reqs: Seq<RequestToTracker>) -> Seq<PeerAddr>
    decreases reqs.len(),
{
    if reqs.len() == 0 {
        roster
    } else {
        let rest = roster_after(roster, reqs.drop_last());
        match reqs.last() {
            RequestToTracker::RegisterAsPeer(a) => rest.push(a),
            RequestToTracker::GetPeers => rest,
        }
    }
}

/// The addresses a request sequence registers, in order.
pub open spec fn registrations(reqs: Seq<RequestToTracker>) -> Seq<PeerAddr>
    decreases reqs.len(),
{
    if reqs.len() == 0 {
        Seq::empty()
    } else {
        match reqs.last() {
            RequestToTracker::RegisterAsPeer(a) => registrations(reqs.drop_last()).push(a),
            RequestToTracker::GetPeers => registrations(reqs.drop_last()),
        }
    }
}

/// Law: a tracker that starts empty and handles any sequence of requests
/// holds exactly the registered addresses, in registration order; a
/// `GetPeers` answered then returns precisely the registrations received
/// before it.
pub proof fn lemma_roster_is_registrations(reqs: Seq<RequestToTracker>)
    ensures
        roster_after(Seq::empty(), reqs) == registrations(reqs),
    decreases reqs.len(),
{
    if reqs.len() > 0 {
        lemma_roster_is_registrations(reqs.drop_last());
    }
}


/// Handling requests one at a time composes: the roster after `reqs` and one
/// more request is the roster after `reqs.push(req)`.
pub proof fn lemma_roster_after_step(
    roster: Seq<PeerAddr>,
    reqs: Seq<RequestToTracker>,
    req: RequestToTracker,
)
    ensures
        roster_after(roster, reqs.push(req)) == roster_after(
            roster_after(roster, reqs),
            seq![req],
        ),
{
    assert(reqs.push(req).drop_last() =~= reqs);
    assert(reqs.push(req).last() == req);
    assert(seq![req].drop_last() =~= Seq::<RequestToTracker>::empty());
    assert(roster_after(roster_after(roster, reqs), Seq::<RequestToTracker>::empty())
        == roster_after(roster, reqs));
    assert(seq![req].last() == req);
}

impl Server {
    /// The roster, oldest registration first.
    pub closed spec fn roster(self) -> Seq<PeerAddr> {
        self.peerlist@
    }

    pub fn new() -> (r: Self)
        ensures
            r.roster() == Seq::<PeerAddr>::empty(),
    {
        let peerlist: Vec<PeerAddr> = Vec::new();
        proof {
            assert(peerlist@ =~= Seq::<PeerAddr>::empty());
        }
        Self { peerlist }
    }

    /// Answers one request: `GetPeers` returns a snapshot of the roster and
    /// changes nothing; `RegisterAsPeer(a)` appends `a` and acknowledges.
    pub fn handle_request(&mut self, req: &RequestToTracker) -> (r: TrackerResponse)
        ensures
            final(self).roster() == roster_after(old(self).roster(), seq![*req]),
            match req {
                RequestToTracker::GetPeers => {
                    &&& final(self).roster() == old(self).roster()
                    &&& r matches TrackerResponse::Peers(l) && l@ == old(self).roster()
                },
                RequestToTracker::RegisterAsPeer(a) => {
                    &&& final(self).roster() == old(self).roster().push(*a)
                    &&& r == TrackerResponse::RegisteredSuccessfully
                },
            },
    {
        proof {
            assert(seq![*req].drop_last() =~= Seq::<RequestToTracker>::empty());
            assert(roster_after(old(self).roster(), Seq::<RequestToTracker>::empty()) == old(
                self,
            ).roster());
            assert(seq![*req].last() == *req);
        }
        match req {
            RequestToTracker::GetPeers => {
                let snapshot = self.peerlist.clone();
                proof {
                    assert(snapshot@ =~= self.peerlist@);
                }
                TrackerResponse::Peers(snapshot)
            },
            RequestToTracker::RegisterAsPeer(a) => {
                self.peerlist.push(*a);
                TrackerResponse::RegisteredSuccessfully
            },
        }
    }

    /// Handles one newline-framed request line and returns the bytes of the
    /// response: a roster snapshot for `GetPeers`, an acknowledgement for
    /// `RegisterAsPeer` (which appends the address), and `InvalidRequest`
    /// for anything else, which leaves the roster alone.
    pub fn handle_line(&mut self, line: &[u8]) -> (r: Vec<u8>)
        ensures
            line@ == enc_request_to_tracker(RequestToTracker::GetPeers) ==> {
                &&& final(self).roster() == old(self).roster()
                &&& r@ == tok_peers_open() + enc_addr_items(old(self).roster())
                    + tok_bracket_close()
            },
            forall|a: PeerAddr|
                line@ == enc_request_to_tracker(RequestToTracker::RegisterAsPeer(a)) ==> {
                    &&& final(self).roster() == old(self).roster().push(a)
                    &&& r@ == tok_msg_registered()
                },
            (forall|m: RequestToTracker| line@ != enc_request_to_tracker(m)) ==> {
                &&& final(self).roster() == old(self).roster()
                &&& r@ == tok_msg_invalid()
            },
    {
        match decode_request_to_tracker(line) {
            Ok(req) => {
                let resp = self.handle_request(&req);
                proof {
                    match req {
                        RequestToTracker::RegisterAsPeer(b0) => {
                            assert forall|a: PeerAddr|
                                line@ == enc_request_to_tracker(
                                    RequestToTracker::RegisterAsPeer(a),
                                ) implies a == b0 by {
                                crate::codec::lemma_register_injective(a, b0);
                            }
                        },
                        RequestToTracker::GetPeers => {},
                    }
                }
                encode_tracker_response(&resp)
            },
            Err(_) => encode_tracker_response(&TrackerResponse::InvalidRequest),
        }
    }
}

} // verus!
