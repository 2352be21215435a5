//! Peer wire message framing and session state on concrete inputs.

use torrent_client::peer::{
    handshake_frame, handshake_matches, Error, Message, Peer, WriteMessage,
};

#[test]
fn decode_frame_scenarios() {
    assert_eq!(Message::decode_frame(&[0, 0, 0, 0]), Ok(Message::KeepAlive));
    assert_eq!(
        Message::decode_frame(&[0, 0, 0, 5, 4, 0, 0, 0, 7]),
        Ok(Message::Have(7))
    );
    assert_eq!(Message::decode_frame(&[0, 0, 0, 1, 1]), Ok(Message::Unchoke));
    assert_eq!(Message::decode_frame(&[0, 0, 0, 1, 0]), Ok(Message::Choke));
    assert_eq!(Message::decode_frame(&[0, 0, 0, 1, 2]), Ok(Message::Interested));
    assert_eq!(
        Message::decode_frame(&[0, 0, 0, 1, 3]),
        Ok(Message::NotInterested)
    );
    assert_eq!(
        Message::decode_frame(&[0, 0, 0, 3, 5, 0xC0, 0x60]),
        Ok(Message::Bitfield(vec![0xC0, 0x60]))
    );
    assert_eq!(
        Message::decode_frame(&[0, 0, 0, 1, 9]),
        Err(Error::InvalidMessageId(9))
    );
}

#[test]
fn from_id_and_payload_message_table() {
    assert_eq!(
        Message::from_id_and_payload(4, vec![0, 0, 1, 0]),
        Ok(Message::Have(256))
    );
    assert_eq!(
        Message::from_id_and_payload(4, vec![1, 2]),
        Err(Error::InvalidPayloadLength { expected: 4, actual: 2 })
    );
    assert_eq!(
        Message::from_id_and_payload(6, vec![0, 0, 0, 1, 0, 0, 0, 2, 0, 0, 64, 0]),
        Ok(Message::Request { index: 1, begin: 2, length: 16384 })
    );
    assert_eq!(
        Message::from_id_and_payload(8, vec![0, 0, 0, 1, 0, 0, 0, 2, 0, 0, 64, 0]),
        Ok(Message::Cancel { index: 1, begin: 2, length: 16384 })
    );
    assert_eq!(
        Message::from_id_and_payload(6, vec![0, 0, 0, 1]),
        Err(Error::InvalidPayloadLength { expected: 12, actual: 4 })
    );
    assert_eq!(
        Message::from_id_and_payload(7, vec![0, 0, 0, 3, 0, 0, 0, 16, 9, 8, 7]),
        Ok(Message::Piece { index: 3, begin: 16, block: vec![9, 8, 7] })
    );
    assert_eq!(
        Message::from_id_and_payload(7, vec![0, 0, 0, 3]),
        Err(Error::InvalidPayloadLength { expected: 8, actual: 4 })
    );
    assert_eq!(
        Message::from_id_and_payload(20, vec![1, 2, 3]),
        Ok(Message::Extended(vec![1, 2, 3]))
    );
    assert_eq!(
        Message::from_id_and_payload(0, vec![1]),
        Err(Error::InvalidMessageId(0))
    );
    assert_eq!(
        Message::from_id_and_payload(13, vec![]),
        Err(Error::InvalidMessageId(13))
    );
}

#[test]
fn from_id_table() {
    assert_eq!(Message::from_id(0), Message::Choke);
    assert_eq!(Message::from_id(1), Message::Unchoke);
    assert_eq!(Message::from_id(2), Message::Interested);
    assert_eq!(Message::from_id(3), Message::NotInterested);
}

#[test]
fn handshake_layout() {
    let info_hash = [7u8; 20];
    let peer_id = [9u8; 20];
    let frame = handshake_frame(&info_hash, &peer_id);
    assert_eq!(frame.len(), 68);
    assert_eq!(frame[0], 19);
    assert_eq!(&frame[1..20], b"BitTorrent protocol");
    assert_eq!(&frame[20..28], &[0u8; 8]);
    assert_eq!(&frame[28..48], &[7u8; 20]);
    assert_eq!(&frame[48..68], &[9u8; 20]);

    let mut response = [0u8; 68];
    response[28..48].copy_from_slice(&[7u8; 20]);
    assert!(handshake_matches(&response, &info_hash));
    response[30] = 1;
    assert!(!handshake_matches(&response, &info_hash));
}

#[test]
fn send_primitives_and_state() {
    let mut peer = Peer::new(16);
    assert!(peer.am_choking());
    assert!(peer.is_choking());
    assert!(!peer.am_interested());
    assert!(!peer.is_interested());

    let unchoke = peer.send_unchoke();
    assert_eq!(unchoke, vec![0, 0, 0, 1, 1]);
    assert!(!peer.am_choking());

    let interested = peer.send_interested();
    assert_eq!(interested, vec![0, 0, 0, 1, 2]);
    assert!(peer.am_interested());

    let request = peer.send_request(1, 16384, 16384);
    assert_eq!(
        request,
        vec![0, 0, 0, 13, 6, 0, 0, 0, 1, 0, 0, 64, 0, 0, 0, 64, 0]
    );

    peer.set_is_choking(false);
    assert!(!peer.is_choking());
    peer.set_is_interested(true);
    assert!(peer.is_interested());
}

#[test]
fn bitfield_updates() {
    let mut peer = Peer::new(16);
    assert!(!peer.has_piece(3));
    peer.update_piece(3);
    assert!(peer.has_piece(3));
    assert!(!peer.has_piece(4));

    // 0xC0: pieces 0 and 1; 0x60: pieces 9 and 10.
    peer.update_bitfield(vec![0xC0, 0x60]);
    assert_eq!(peer.num_pieces(), 16);
    assert!(peer.has_piece(0));
    assert!(peer.has_piece(1));
    assert!(!peer.has_piece(2));
    assert!(!peer.has_piece(3));
    assert!(peer.has_piece(9));
    assert!(peer.has_piece(10));
    assert!(!peer.has_piece(100));
}

#[test]
fn write_message_carries_block() {
    let wm = WriteMessage::new(2, 16384, &[1, 2, 3]);
    assert_eq!(wm.index(), 2);
    assert_eq!(wm.begin(), 16384);
    assert_eq!(wm.block(), &vec![1, 2, 3]);
}
