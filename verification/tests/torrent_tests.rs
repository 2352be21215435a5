//! Scheduler behaviour: piece selection, release, and a two-peer run.

use std::collections::HashSet;
use torrent_client::bits::{bits_from_elem, bits_get};
use torrent_client::client::Client;
use torrent_client::file::{Assembler, BlockOutcome};
use torrent_client::peer::{Message, Peer};
use torrent_client::torrent::{
    addr_key, get_last_piece_length, get_next_piece, handle_message, is_there_next_piece,
    release_assignment, Action, DownloadingPiece, BLOCK_SIZE,
};
use torrent_client::tracker::PeerAddr;

/// A block handed from a session to the assembler crosses from the peer
/// module's message type to the file module's.
fn to_assembler(wm: &torrent_client::peer::WriteMessage) -> torrent_client::file::WriteMessage {
    torrent_client::file::WriteMessage::new(wm.index(), wm.begin(), wm.block().as_slice())
}

#[test]
fn last_piece_length_formula() {
    assert_eq!(get_last_piece_length(100, 4, 32), 4);
    assert_eq!(get_last_piece_length(128, 4, 32), 32);
    assert_eq!(get_last_piece_length(1, 1, 16384), 1);
}

#[test]
fn block_size_constant() {
    assert_eq!(BLOCK_SIZE, 16384);
}

#[test]
fn addr_key_packs_address() {
    let a = PeerAddr { ip0: 10, ip1: 0, ip2: 0, ip3: 1, port: 6881 };
    assert_eq!(addr_key(&a), ((10u64 << 24 | 1) << 16) | 6881);
}

#[test]
fn piece_selection_prefers_smallest() {
    let mut avail: HashSet<u32> = HashSet::new();
    avail.insert(1);
    avail.insert(2);
    let mut peer = Peer::new(8);
    // The peer has pieces 0 and 2; piece 0 is not available.
    peer.update_piece(0);
    peer.update_piece(2);
    assert!(is_there_next_piece(&peer, &avail));
    assert_eq!(get_next_piece(&peer, &mut avail), Some(2));
    assert!(!avail.contains(&2));
    assert_eq!(get_next_piece(&peer, &mut avail), None);
    assert!(!is_there_next_piece(&peer, &avail));
}

#[test]
fn release_returns_open_assignment() {
    let file_bits = bits_from_elem(4, false);
    let mut avail: HashSet<u32> = HashSet::new();
    let mut dp = DownloadingPiece::new();
    dp.piece = Some(3);
    dp.offset = 16;
    release_assignment(&mut dp, &mut avail, &file_bits);
    assert_eq!(dp.piece, None);
    assert_eq!(dp.offset, 0);
    assert!(avail.contains(&3));

    // A piece the file already holds is not put back.
    let mut done_bits = bits_from_elem(4, false);
    torrent_client::bits::bits_set(&mut done_bits, 2, true);
    assert_eq!(bits_get(&done_bits, 2), Some(true));
    let mut avail2: HashSet<u32> = HashSet::new();
    let mut dp2 = DownloadingPiece::new();
    dp2.piece = Some(2);
    release_assignment(&mut dp2, &mut avail2, &done_bits);
    assert_eq!(dp2.piece, None);
    assert!(!avail2.contains(&2));
}

// SHA-1 digests of [0;16], [1;16], and [2;16].
const D0: [u8; 20] = [
    225, 41, 242, 124, 81, 3, 188, 92, 196, 75, 205, 240, 161, 94, 22, 13, 68, 80, 102, 255,
];
const D1: [u8; 20] = [
    52, 92, 14, 151, 152, 123, 31, 78, 27, 227, 142, 225, 103, 138, 95, 16, 97, 194, 195, 1,
];
const D2: [u8; 20] = [
    145, 137, 73, 157, 196, 73, 59, 42, 110, 38, 166, 249, 194, 107, 63, 175, 194, 8, 105, 88,
];

/// Two peers with bitfields {0,1} and {1,2} download pieces {0,1,2}
/// without overlapping work; at the end the file bitfield is all set and
/// both sessions have closed.
#[test]
fn two_peer_download_without_overlap() {
    let num_pieces: u32 = 3;
    let piece_len: u32 = 16;
    let last_len: u32 = 16;
    let mut avail: HashSet<u32> = HashSet::new();
    for i in 0..num_pieces {
        avail.insert(i);
    }
    let mut assembler = Assembler::new(
        piece_len,
        last_len,
        3,
        16,
        vec![D0.to_vec(), D1.to_vec(), D2.to_vec()],
    );
    let mut file_bits = bits_from_elem(3, false);

    let mut peer_a = Peer::new(3);
    let mut dp_a = DownloadingPiece::new();
    let mut peer_b = Peer::new(3);
    let mut dp_b = DownloadingPiece::new();
    let mut assigned: Vec<u32> = Vec::new();

    // Peer A announces pieces {0,1}: bitfield byte 0b1100_0000.
    let (fw, act) = handle_message(
        &mut peer_a, &mut dp_a, &mut avail, &Message::Bitfield(vec![0xC0]), num_pieces,
        piece_len, last_len,
    );
    assert!(fw.is_none());
    assert_eq!(act, Action::SendInterested);

    // Peer B announces pieces {1,2}: bitfield byte 0b0110_0000.
    let (fw, act) = handle_message(
        &mut peer_b, &mut dp_b, &mut avail, &Message::Bitfield(vec![0x60]), num_pieces,
        piece_len, last_len,
    );
    assert!(fw.is_none());
    assert_eq!(act, Action::SendInterested);

    // A is unchoked first and claims piece 0, the smallest it has.
    let (_, act) = handle_message(
        &mut peer_a, &mut dp_a, &mut avail, &Message::Unchoke, num_pieces, piece_len, last_len,
    );
    assert_eq!(act, Action::SendRequest { index: 0, begin: 0, length: 16 });
    assigned.push(0);

    // B claims piece 1: no overlap with A's assignment.
    let (_, act) = handle_message(
        &mut peer_b, &mut dp_b, &mut avail, &Message::Unchoke, num_pieces, piece_len, last_len,
    );
    assert_eq!(act, Action::SendRequest { index: 1, begin: 0, length: 16 });
    assigned.push(1);
    assert_ne!(dp_a.piece, dp_b.piece);

    // A delivers piece 0 in one block; nothing is left that A has, so A
    // closes.
    let (fw, act) = handle_message(
        &mut peer_a, &mut dp_a, &mut avail,
        &Message::Piece { index: 0, begin: 0, block: vec![0u8; 16] },
        num_pieces, piece_len, last_len,
    );
    let wm = fw.expect("block must be forwarded");
    match assembler.on_block(&to_assembler(&wm)) {
        BlockOutcome::Completed { offset, data } => {
            assert_eq!(offset, 0);
            assert_eq!(data, vec![0u8; 16]);
            torrent_client::bits::bits_set(&mut file_bits, 0, true);
        }
        _ => panic!("piece 0 should verify"),
    }
    assert_eq!(act, Action::Close);
    release_assignment(&mut dp_a, &mut avail, &file_bits);

    // B delivers piece 1 and moves on to piece 2.
    let (fw, act) = handle_message(
        &mut peer_b, &mut dp_b, &mut avail,
        &Message::Piece { index: 1, begin: 0, block: vec![1u8; 16] },
        num_pieces, piece_len, last_len,
    );
    let wm = fw.expect("block must be forwarded");
    match assembler.on_block(&to_assembler(&wm)) {
        BlockOutcome::Completed { offset, data } => {
            assert_eq!(offset, 16);
            assert_eq!(data, vec![1u8; 16]);
            torrent_client::bits::bits_set(&mut file_bits, 1, true);
        }
        _ => panic!("piece 1 should verify"),
    }
    assert_eq!(act, Action::SendRequest { index: 2, begin: 0, length: 16 });
    assigned.push(2);

    // B delivers piece 2 and closes: nothing is left.
    let (fw, act) = handle_message(
        &mut peer_b, &mut dp_b, &mut avail,
        &Message::Piece { index: 2, begin: 0, block: vec![2u8; 16] },
        num_pieces, piece_len, last_len,
    );
    let wm = fw.expect("block must be forwarded");
    match assembler.on_block(&to_assembler(&wm)) {
        BlockOutcome::Completed { offset, data } => {
            assert_eq!(offset, 32);
            assert_eq!(data, vec![2u8; 16]);
            torrent_client::bits::bits_set(&mut file_bits, 2, true);
        }
        _ => panic!("piece 2 should verify"),
    }
    assert_eq!(act, Action::Close);
    release_assignment(&mut dp_b, &mut avail, &file_bits);

    // Every piece was assigned exactly once, the file is complete, and
    // neither session holds an assignment.
    assigned.sort();
    assert_eq!(assigned, vec![0, 1, 2]);
    for i in 0..3 {
        assert_eq!(bits_get(&file_bits, i), Some(true));
    }
    assert!(avail.is_empty());
    assert_eq!(dp_a.piece, None);
    assert_eq!(dp_b.piece, None);
}

#[test]
fn session_state_transitions() {
    let num_pieces: u32 = 2;
    let mut avail: HashSet<u32> = HashSet::new();
    let mut peer = Peer::new(2);
    let mut dp = DownloadingPiece::new();

    // Choke and unchoke toggle the remote-choking flag.
    let (_, act) = handle_message(
        &mut peer, &mut dp, &mut avail, &Message::Choke, num_pieces, 16, 16,
    );
    assert_eq!(act, Action::DoNothing);
    assert!(peer.is_choking());

    // Interested and not-interested toggle the remote-interest flag.
    let (_, act) = handle_message(
        &mut peer, &mut dp, &mut avail, &Message::Interested, num_pieces, 16, 16,
    );
    assert_eq!(act, Action::DoNothing);
    assert!(peer.is_interested());
    let (_, act) = handle_message(
        &mut peer, &mut dp, &mut avail, &Message::NotInterested, num_pieces, 16, 16,
    );
    assert_eq!(act, Action::DoNothing);
    assert!(!peer.is_interested());

    // A keep-alive when the peer has nothing the file needs closes.
    let (_, act) = handle_message(
        &mut peer, &mut dp, &mut avail, &Message::KeepAlive, num_pieces, 16, 16,
    );
    assert_eq!(act, Action::Close);

    // An unchoke with nothing available also closes.
    let (_, act) = handle_message(
        &mut peer, &mut dp, &mut avail, &Message::Unchoke, num_pieces, 16, 16,
    );
    assert_eq!(act, Action::Close);

    // A have message for a needed piece awakens interest.
    avail.insert(1);
    let (_, act) = handle_message(
        &mut peer, &mut dp, &mut avail, &Message::Have(1), num_pieces, 16, 16,
    );
    assert_eq!(act, Action::SendInterested);
    assert!(peer.am_interested());

    // A keep-alive now keeps the session open.
    let (_, act) = handle_message(
        &mut peer, &mut dp, &mut avail, &Message::KeepAlive, num_pieces, 16, 16,
    );
    assert_eq!(act, Action::DoNothing);

    // Request and cancel are ignored: this client only downloads.
    let (_, act) = handle_message(
        &mut peer, &mut dp, &mut avail,
        &Message::Request { index: 0, begin: 0, length: 4 }, num_pieces, 16, 16,
    );
    assert_eq!(act, Action::DoNothing);
    let (_, act) = handle_message(
        &mut peer, &mut dp, &mut avail,
        &Message::Cancel { index: 0, begin: 0, length: 4 }, num_pieces, 16, 16,
    );
    assert_eq!(act, Action::DoNothing);
}

#[test]
fn partial_piece_requests_next_block_in_order() {
    // One piece of 40 bytes with 16-byte blocks: requests advance by block
    // and the final request is clamped to the remainder.
    let mut avail: HashSet<u32> = HashSet::new();
    avail.insert(0);
    let mut peer = Peer::new(1);
    peer.update_piece(0);
    let mut dp = DownloadingPiece::new();

    let (_, act) = handle_message(&mut peer, &mut dp, &mut avail, &Message::Unchoke, 1, 40, 40);
    assert_eq!(act, Action::SendRequest { index: 0, begin: 0, length: 40 });

    // With a larger piece the first request is a whole transfer block.
    let mut avail2: HashSet<u32> = HashSet::new();
    avail2.insert(0);
    let mut peer2 = Peer::new(1);
    peer2.update_piece(0);
    let mut dp2 = DownloadingPiece::new();
    let big = BLOCK_SIZE + 8;
    let (_, act) = handle_message(
        &mut peer2, &mut dp2, &mut avail2, &Message::Unchoke, 1, big, big,
    );
    assert_eq!(act, Action::SendRequest { index: 0, begin: 0, length: BLOCK_SIZE });

    // A block arrives; the tail request asks only for what remains.
    let (fw, act) = handle_message(
        &mut peer2, &mut dp2, &mut avail2,
        &Message::Piece { index: 0, begin: 0, block: vec![0u8; BLOCK_SIZE as usize] },
        1, big, big,
    );
    assert!(fw.is_some());
    assert_eq!(act, Action::SendRequest { index: 0, begin: BLOCK_SIZE, length: 8 });
    assert_eq!(dp2.offset, BLOCK_SIZE);
}

#[test]
fn client_constructors() {
    let _ = Client::new();
    let _ = Client::default();
}

#[test]
fn torrent_state_tracks_completion_and_connections() {
    // A one-piece descriptor built from bytes, then scheduler state on top.
    let mut doc: Vec<u8> = b"d8:announce3:url4:info".to_vec();
    doc.extend_from_slice(b"d6:lengthi16e4:name1:f12:piece lengthi16e6:pieces20:");
    doc.extend_from_slice(&D0);
    doc.extend_from_slice(b"ee");
    let metainfo = torrent_client::metainfo::MetaInfo::from_bencode(&doc).unwrap();
    let expected_hash = *metainfo.info_hash();
    let mut torrent = torrent_client::torrent::Torrent::new(metainfo, [7u8; 20]);

    assert_eq!(torrent.info_hash(), &expected_hash);
    assert_eq!(torrent.metainfo().info().piece_length(), 16);
    assert!(!torrent.is_complete());
    assert!(torrent.available_pieces.contains(&0));

    assert!(!torrent.is_connected(5));
    torrent.connect_peer(5);
    assert!(torrent.is_connected(5));
    torrent.disconnect_peer(5);
    assert!(!torrent.is_connected(5));

    torrent.mark_piece_done(0);
    assert!(torrent.is_complete());
}

#[test]
fn digests_compare_by_bytes() {
    let a = torrent_client::digest::sha1_digest(b"abc");
    let b = torrent_client::digest::sha1_digest(b"abc");
    let c = torrent_client::digest::sha1_digest(b"abd");
    assert!(torrent_client::digest::digest_matches(&a, &b));
    assert!(!torrent_client::digest::digest_matches(&a, &c));
}
