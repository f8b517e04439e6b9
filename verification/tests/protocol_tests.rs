use minitorrent::client::{
    peer_has_packet, pick_candidate, walk_seed, xorshift64, Client, SeedReply,
};
use minitorrent::codec::{decode_seed_response, encode_leech_request};
use minitorrent::requests::{LeechRequest, PeerAddr, RequestToTracker, TrackerResponse};
use minitorrent::server::Server;
use minitorrent::torrent_file::TorrentFile;

fn addr(a: u8, b: u8, c: u8, d: u8, port: u16) -> PeerAddr {
    PeerAddr { a, b, c, d, port }
}

#[test]
fn tracker_empty_roster_answers_empty_peers() {
    let mut tracker = Server::new();
    let out = tracker.handle_line(b"\"GetPeers\"");
    assert_eq!(out.as_slice(), &b"{\"Peers\":[]}"[..]);
}

#[test]
fn tracker_returns_registrations_in_order() {
    let mut tracker = Server::new();
    let r1 = tracker.handle_line(b"{\"RegisterAsPeer\":\"127.0.0.166:5468\"}");
    assert_eq!(r1.as_slice(), &b"\"RegisteredSuccessfully\""[..]);
    let r2 = tracker.handle_line(b"{\"RegisterAsPeer\":\"127.0.0.167:7846\"}");
    assert_eq!(r2.as_slice(), &b"\"RegisteredSuccessfully\""[..]);
    let out = tracker.handle_line(b"\"GetPeers\"");
    assert_eq!(
        out.as_slice(),
        &b"{\"Peers\":[\"127.0.0.166:5468\",\"127.0.0.167:7846\"]}"[..]
    );
}

#[test]
fn tracker_rejects_garbage_and_keeps_roster() {
    let mut tracker = Server::new();
    let resp = tracker.handle_request(&RequestToTracker::RegisterAsPeer(addr(1, 2, 3, 4, 5)));
    assert!(matches!(resp, TrackerResponse::RegisteredSuccessfully));
    let out = tracker.handle_line(b"\"GetTorrents\"");
    assert_eq!(out.as_slice(), &b"\"InvalidRequest\""[..]);
    match tracker.handle_request(&RequestToTracker::GetPeers) {
        TrackerResponse::Peers(v) => assert_eq!(v, vec![addr(1, 2, 3, 4, 5)]),
        _ => panic!("expected the roster"),
    }
}

#[test]
fn seed_serves_raw_packet_bytes() {
    // torrent_size=8, packet_size=1, file "ABCDabcd": GetPackets(3,2) is "Da".
    let store = TorrentFile::from_complete(b"f".to_vec(), 1, b"ABCDabcd".to_vec());
    let seed = Client::new(addr(127, 0, 0, 166, 2222), store);
    let frame = encode_leech_request(&LeechRequest::GetPackets(3, 2));
    match seed.handle_leech_frame(&frame) {
        SeedReply::Raw(bytes) => assert_eq!(bytes, vec![0x44, 0x61]),
        SeedReply::Framed(_) => panic!("expected raw bytes"),
    }
}

#[test]
fn seed_rejects_unavailable_and_malformed() {
    let store = TorrentFile::new(b"f".to_vec(), 8, 1);
    let seed = Client::new(addr(127, 0, 0, 166, 2222), store);
    let frame = encode_leech_request(&LeechRequest::GetPackets(0, 1));
    match seed.handle_leech_frame(&frame) {
        SeedReply::Framed(out) => assert_eq!(out.as_slice(), &b"\"InvalidRequest\""[..]),
        SeedReply::Raw(_) => panic!("nothing is available yet"),
    }
    match seed.handle_leech_frame(b"\"GetEverything\"") {
        SeedReply::Framed(out) => assert_eq!(out.as_slice(), &b"\"InvalidRequest\""[..]),
        SeedReply::Raw(_) => panic!("malformed frames get a framed rejection"),
    }
}

#[test]
fn leech_skips_peer_without_the_packet() {
    // A seed that holds only packet 0 answers GetAvailability; the leech sees
    // that bit 1 is clear and must try another peer for it.
    let mut store = TorrentFile::new(b"f".to_vec(), 4, 1);
    store.write_packets(0, b"A");
    let seed = Client::new(addr(127, 0, 0, 166, 2222), store);
    let frame = encode_leech_request(&LeechRequest::GetAvailability);
    let reply = match seed.handle_leech_frame(&frame) {
        SeedReply::Framed(out) => out,
        SeedReply::Raw(_) => panic!("availability is framed"),
    };
    let resp = decode_seed_response(&reply).unwrap();
    assert!(peer_has_packet(&resp, 0));
    assert!(!peer_has_packet(&resp, 1));
}

#[test]
fn peerlist_request_and_response_glue() {
    let line = Client::peerlist_request_line();
    assert_eq!(line.as_slice(), &b"\"GetPeers\"\n"[..]);
    let store = TorrentFile::new(b"f".to_vec(), 4, 1);
    let me = Client::new(addr(127, 0, 0, 167, 4444), store);
    assert_eq!(
        me.register_line().as_slice(),
        &b"{\"RegisterAsPeer\":\"127.0.0.167:4444\"}\n"[..]
    );
    let peers =
        Client::parse_peerlist_response(b"{\"Peers\":[\"10.0.0.1:80\"]}").unwrap();
    assert_eq!(peers, vec![addr(10, 0, 0, 1, 80)]);
    assert!(Client::parse_peerlist_response(b"\"InvalidRequest\"").is_err());
    assert!(Client::parse_peerlist_response(b"\"RegisteredSuccessfully\"").is_err());
}

#[test]
fn xorshift_walks_as_computed() {
    assert_eq!(xorshift64(1), 1082269761);
    assert_eq!(walk_seed(3, 2), 6);
    let (idx, next) = pick_candidate(3, walk_seed(3, 2));
    assert_eq!(next, 6493618566);
    assert_eq!(idx, 0);
    let (idx2, _) = pick_candidate(3, next);
    assert!(idx2 < 3);
}

#[test]
fn swarm_completes_through_the_codec() {
    // One full seed, one empty leech, every exchange through the wire codec:
    // the leech ends with the seed's bytes and an all-ones bitmap.
    let content = b"ABCDabcdEF".to_vec();
    let seed = Client::new(
        addr(127, 0, 0, 166, 2222),
        TorrentFile::from_complete(b"sent".to_vec(), 4, content.clone()),
    );
    let mut leech = Client::new(
        addr(127, 0, 0, 167, 4444),
        TorrentFile::new(b"received".to_vec(), 10, 4),
    );
    let mut fetched = 0;
    while let Some(i) = leech.torrent_file().next_missing(0) {
        let probe = encode_leech_request(&LeechRequest::GetAvailability);
        let reply = match seed.handle_leech_frame(&probe) {
            SeedReply::Framed(out) => out,
            SeedReply::Raw(_) => panic!("availability is framed"),
        };
        let resp = decode_seed_response(&reply).unwrap();
        assert!(peer_has_packet(&resp, i));
        let frame = encode_leech_request(&LeechRequest::GetPackets(i, 1));
        let bytes = match seed.handle_leech_frame(&frame) {
            SeedReply::Raw(bytes) => bytes,
            SeedReply::Framed(_) => panic!("the seed holds every packet"),
        };
        leech.torrent_file_mut().write_packets(i, &bytes);
        fetched += 1;
        assert!(fetched <= 3, "a fetch must make progress");
    }
    assert_eq!(leech.torrent_file().content(), &content);
    assert_eq!(
        leech.torrent_file().read_packet_availability(),
        seed.torrent_file().read_packet_availability()
    );
    assert_eq!(leech.torrent_file().read_packets(0, 3).unwrap(), content);
}
