#![allow(non_snake_case)]

use minitorrent::div_usize_ceil;
use minitorrent::requests::TorrentError;
use minitorrent::torrent_file::TorrentFile;

use minitorrent::codec::encode_progress_record;

fn path(name: &str) -> Vec<u8> {
    name.as_bytes().to_vec()
}

#[test]
fn div_usize_ceil_same_as_floor() {
    assert_eq!(div_usize_ceil(40, 20), 2);
    assert_eq!(div_usize_ceil(134, 20), 7);
    assert_eq!(div_usize_ceil(1, 1), 1);
    assert_eq!(div_usize_ceil(21, 1), 21);
}

#[test]
fn div_usize_ceil_rounds_up() {
    assert_eq!(div_usize_ceil(40, 21), 2);
    assert_eq!(div_usize_ceil(40, 19), 3);
    assert_eq!(div_usize_ceil(17, 2), 9);
    assert_eq!(div_usize_ceil(13, 3), 5);
}

#[test]
fn file_handler_div_usize_ceil_same_as_floor() {
    assert_eq!(div_usize_ceil(40, 20), 2);
    assert_eq!(div_usize_ceil(134, 20), 7);
    assert_eq!(div_usize_ceil(1, 1), 1);
    assert_eq!(div_usize_ceil(21, 1), 21);
}

#[test]
fn file_handler_div_usize_ceil_rounds_up() {
    assert_eq!(div_usize_ceil(40, 21), 2);
    assert_eq!(div_usize_ceil(40, 19), 3);
    assert_eq!(div_usize_ceil(17, 2), 9);
    assert_eq!(div_usize_ceil(13, 3), 5);
}

#[test]
fn FileHandler_new() {
    let handler = TorrentFile::new(path(".testfiles/test_file"), 10, 1);
    assert_eq!(handler.packet_count(), 10);
}

#[test]
fn FileHandler_last_packet_not_whole() {
    let handler = TorrentFile::new(path(".testfiles/test_file"), 10, 4);
    assert_eq!(handler.packet_count(), 3);
    assert_eq!(handler.read_packet_availability().len(), 3);
}

#[test]
fn FileHandler_write_packets_get_packets() {
    let mut handler = TorrentFile::new(path(".testfiles/FileHandler_write_packets"), 10, 4);
    handler.write_packets(0, "ABCDabcd".as_bytes());
    assert_eq!(handler.read_packets(0, 2).unwrap(), "ABCDabcd".as_bytes());
}

#[test]
fn FileHandler_write_packets_actual_file() {
    let mut handler = TorrentFile::new(path(".testfiles/FileHandler_write_packets"), 10, 4);
    handler.write_packets(0, "ABCDabcd".as_bytes());
    // The modelled content holds the written bytes, ready to mirror to disk.
    assert_eq!(&handler.content()[..8], "ABCDabcd".as_bytes());
}

#[test]
fn FileHandler_write_packets_non_divisible() {
    let mut handler = TorrentFile::new(path(".testfiles/FileHandler_write_packets"), 10, 4);
    handler.write_packets(0, "ABCDabcd".as_bytes());
    assert_eq!(handler.read_packets(0, 2).unwrap(), "ABCDabcd".as_bytes());
}

#[test]
fn FileHandler_read_packets_out_of_bounds() {
    let mut handler = TorrentFile::new(path(".testfiles/FileHandler_write_packets_nondiv"), 10, 4);
    handler.write_packets(0, "ABCDabcd".as_bytes());
    assert!(handler.read_packets(0, 256).is_err());
}

#[test]
fn FileHandler_read_packets_unavailable() {
    let mut handler = TorrentFile::new(path(".testfiles/FileHandler_write_packets_nondiv"), 10, 4);
    handler.write_packets(0, "ABCDabcd".as_bytes());
    assert!(handler.read_packets(3, 4).is_err());
}

#[test]
fn FileHandler_get_packet_availability() {
    let mut handler = TorrentFile::new(path(".testfiles/FileHandler_get_packet_availability"), 8, 1);
    let mut vec = bit_vec::BitVec::from_bytes(&[0]);
    assert_eq!(handler.read_packet_availability(), vec);
    handler.write_packets(0, "AA".as_bytes());
    vec.set(0, true);
    vec.set(1, true);
    assert_eq!(handler.read_packet_availability(), vec);
}

#[test]
fn FileHandler_serde() {
    let content = "ABCDabcd".as_bytes();
    let mut handler = TorrentFile::new(path(".testfiles/FileHandler_serde"), 8, 1);
    handler.write_packets(0, content);
    let serialized = encode_progress_record(&handler.progress_record());
    let deserialized = TorrentFile::from_progress_file(&serialized, handler.content().clone())
        .unwrap();
    assert_eq!(deserialized.read_packets(0, 8).unwrap(), content);
}

#[test]
fn read_packets_error_kinds() {
    let mut st = TorrentFile::new(path("f"), 10, 4);
    st.write_packets(0, "ABCDabcd".as_bytes());
    // Past the packet count: OutOfBounds, even where bits are set.
    assert_eq!(st.read_packets(1, 3).unwrap_err(), TorrentError::OutOfBounds);
    // In bounds but a bit in the range is clear: Unavailable.
    assert_eq!(st.read_packets(2, 1).unwrap_err(), TorrentError::Unavailable);
}

#[test]
fn last_packet_is_short() {
    // torrent_size=10, packet_size=4 gives three packets; the last is 2 bytes.
    let content = b"0123456789".to_vec();
    let st = TorrentFile::from_complete(path("f"), 4, content);
    assert_eq!(st.packet_count(), 3);
    assert_eq!(st.read_packets(2, 1).unwrap(), b"89".to_vec());
}

#[test]
fn write_sets_exactly_the_covered_bits() {
    let mut st = TorrentFile::new(path("f"), 16, 4);
    st.write_packets(1, b"XXXXYY");
    let bits = st.read_packet_availability();
    assert_eq!(bits.get(0), Some(false));
    assert_eq!(bits.get(1), Some(true));
    assert_eq!(bits.get(2), Some(true));
    assert_eq!(bits.get(3), Some(false));
    assert_eq!(st.read_packets(1, 1).unwrap(), b"XXXX".to_vec());
    assert_eq!(st.next_missing(0), Some(0));
    assert_eq!(st.next_missing(1), Some(3));
}

#[test]
fn progress_survives_odd_paths() {
    // A path with a quote, a backslash and a control byte round-trips.
    let mut odd = b"dir\\\"name".to_vec();
    odd.push(9);
    odd.push(200);
    let mut st = TorrentFile::new(odd.clone(), 6, 2);
    st.write_packets(0, b"ab");
    let bytes = encode_progress_record(&st.progress_record());
    let resumed = TorrentFile::from_progress_file(&bytes, st.content().clone()).unwrap();
    assert_eq!(resumed.path(), &odd);
    assert_eq!(resumed.torrent_size(), 6);
    assert_eq!(resumed.packet_size(), 2);
    assert_eq!(resumed.packet_count(), 3);
    assert_eq!(resumed.read_packet_availability(), st.read_packet_availability());
}

#[test]
fn progress_wrong_content_is_io_error() {
    let st = TorrentFile::new(path("f"), 8, 2);
    let bytes = encode_progress_record(&st.progress_record());
    let short = vec![0u8; 5];
    match TorrentFile::from_progress_file(&bytes, short) {
        Err(e) => assert_eq!(e, TorrentError::IoError),
        Ok(_) => panic!("a short content file cannot resume"),
    }
}

#[test]
fn progress_garbage_is_codec_error() {
    let content = vec![0u8; 8];
    match TorrentFile::from_progress_file(b"{\"path\":oops", content) {
        Err(e) => assert_eq!(e, TorrentError::CodecError),
        Ok(_) => panic!("garbage cannot resume"),
    }
}

#[test]
fn progress_path_names_the_sidecar() {
    let st = TorrentFile::new(path("movie.bin"), 8, 2);
    assert_eq!(st.progress_path(), b"movie.bin.progress".to_vec());
}
