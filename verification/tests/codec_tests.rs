use minitorrent::codec::{
    decode_leech_request, decode_request_to_tracker, decode_seed_response,
    decode_tracker_response, encode_leech_request, encode_request_to_tracker,
    encode_seed_response, encode_tracker_response, parse_progress_record,
};
use minitorrent::bitmap::{bv_from_elem, bv_set};
use minitorrent::requests::{
    LeechRequest, PeerAddr, RequestToTracker, SeedResponse, TorrentError, TrackerResponse,
};

fn addr(a: u8, b: u8, c: u8, d: u8, port: u16) -> PeerAddr {
    PeerAddr { a, b, c, d, port }
}

#[test]
fn get_peers_wire_form() {
    let out = encode_request_to_tracker(&RequestToTracker::GetPeers);
    assert_eq!(out.as_slice(), &b"\"GetPeers\""[..]);
    assert!(matches!(
        decode_request_to_tracker(&out),
        Ok(RequestToTracker::GetPeers)
    ));
}

#[test]
fn register_wire_form() {
    let out =
        encode_request_to_tracker(&RequestToTracker::RegisterAsPeer(addr(127, 0, 0, 1, 2137)));
    assert_eq!(out.as_slice(), &b"{\"RegisterAsPeer\":\"127.0.0.1:2137\"}"[..]);
    match decode_request_to_tracker(&out) {
        Ok(RequestToTracker::RegisterAsPeer(a)) => {
            assert_eq!(a, addr(127, 0, 0, 1, 2137));
        }
        _ => panic!("expected a registration"),
    }
}

#[test]
fn tracker_response_wire_forms() {
    let peers = TrackerResponse::Peers(vec![
        addr(127, 0, 0, 166, 5468),
        addr(127, 0, 0, 167, 7846),
    ]);
    let out = encode_tracker_response(&peers);
    assert_eq!(
        out.as_slice(),
        &b"{\"Peers\":[\"127.0.0.166:5468\",\"127.0.0.167:7846\"]}"[..]
    );
    match decode_tracker_response(&out) {
        Ok(TrackerResponse::Peers(v)) => {
            assert_eq!(v, vec![addr(127, 0, 0, 166, 5468), addr(127, 0, 0, 167, 7846)]);
        }
        _ => panic!("expected a peer list"),
    }
    let ok = encode_tracker_response(&TrackerResponse::RegisteredSuccessfully);
    assert_eq!(ok.as_slice(), &b"\"RegisteredSuccessfully\""[..]);
    let bad = encode_tracker_response(&TrackerResponse::InvalidRequest);
    assert_eq!(bad.as_slice(), &b"\"InvalidRequest\""[..]);
}

#[test]
fn leech_request_wire_forms() {
    let out = encode_leech_request(&LeechRequest::GetAvailability);
    assert_eq!(out.as_slice(), &b"\"GetAvailability\""[..]);
    let out = encode_leech_request(&LeechRequest::GetPackets(3, 2));
    assert_eq!(out.as_slice(), &b"{\"GetPackets\":[3,2]}"[..]);
    assert!(matches!(
        decode_leech_request(&out),
        Ok(LeechRequest::GetPackets(3, 2))
    ));
}

#[test]
fn availability_wire_form() {
    let mut bv = bv_from_elem(3, false);
    bv_set(&mut bv, 0, true);
    let out = encode_seed_response(&SeedResponse::Availability(bv));
    assert_eq!(out.as_slice(), &b"{\"Availability\":[3,\"100\"]}"[..]);
    match decode_seed_response(&out) {
        Ok(SeedResponse::Availability(back)) => {
            assert_eq!(back.len(), 3);
            assert_eq!(back.get(0), Some(true));
            assert_eq!(back.get(1), Some(false));
            assert_eq!(back.get(2), Some(false));
        }
        _ => panic!("expected an availability snapshot"),
    }
}

#[test]
fn malformed_frames_are_codec_errors() {
    assert_eq!(
        decode_request_to_tracker(b"\"GetPeers\" ").unwrap_err(),
        TorrentError::CodecError
    );
    assert_eq!(decode_tracker_response(b"").unwrap_err(), TorrentError::CodecError);
    assert_eq!(
        decode_leech_request(b"{\"GetPackets\":[03,2]}").unwrap_err(),
        TorrentError::CodecError
    );
    assert_eq!(
        decode_seed_response(b"{\"Availability\":[3,\"10\"]}").unwrap_err(),
        TorrentError::CodecError
    );
    assert_eq!(
        parse_progress_record(b"{\"path\":\"f\",\"torrent_size\":8}").unwrap_err(),
        TorrentError::CodecError
    );
}

#[test]
fn decoders_reject_variant_mixups() {
    // A tracker frame is not a leech frame and the other way round.
    let reg = encode_request_to_tracker(&RequestToTracker::RegisterAsPeer(addr(1, 2, 3, 4, 5)));
    assert!(decode_leech_request(&reg).is_err());
    let gp = encode_leech_request(&LeechRequest::GetPackets(0, 1));
    assert!(decode_request_to_tracker(&gp).is_err());
}

#[test]
fn empty_peer_list_round_trips() {
    let out = encode_tracker_response(&TrackerResponse::Peers(Vec::new()));
    assert_eq!(out.as_slice(), &b"{\"Peers\":[]}"[..]);
    match decode_tracker_response(&out) {
        Ok(TrackerResponse::Peers(v)) => assert!(v.is_empty()),
        _ => panic!("expected an empty peer list"),
    }
}
