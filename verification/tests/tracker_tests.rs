//! Tracker request bytes and response parsing on concrete inputs.

use torrent_client::bencode;
use torrent_client::bencode::Type;
use torrent_client::tracker::{
    announce_retry, percent_encode, random_peer_id, Error, IoKind, PeerAddr, Peers,
    TrackerRequest, TrackerResponse,
};

#[test]
fn compact_peers_scenario() {
    // 0x0A 0x00 0x00 0x01 0x1A 0xE1 is 10.0.0.1:6881.
    let bytes = vec![0x0A, 0x00, 0x00, 0x01, 0x1A, 0xE1];
    let value = Type::String(bytes.clone(), bytes);
    match Peers::from_bencode_type(&value) {
        Ok(Peers::Binary(peers)) => {
            assert_eq!(peers.len(), 1);
            assert_eq!(
                peers[0],
                PeerAddr { ip0: 10, ip1: 0, ip2: 0, ip3: 1, port: 6881 }
            );
        }
        other => panic!("unexpected result: {:?}", other),
    }
}

#[test]
fn compact_peers_rejects_partial_entries() {
    let bytes = vec![0x0A, 0x00, 0x00, 0x01, 0x1A];
    let value = Type::String(bytes.clone(), bytes);
    match Peers::from_bencode_type(&value) {
        Err(Error::MissingPeers) => {}
        other => panic!("unexpected result: {:?}", other),
    }
}

#[test]
fn dictionary_peers() {
    let doc = b"ld2:ip8:10.0.0.27:peer id3:abc4:porti6882eee";
    let value = bencode::bedecode(doc).unwrap();
    match Peers::from_bencode_type(&value) {
        Ok(Peers::Dictionary(peers)) => {
            assert_eq!(peers.len(), 1);
            assert_eq!(peers[0].peer_id, b"abc".to_vec());
            assert_eq!(peers[0].ip, b"10.0.0.2".to_vec());
            assert_eq!(peers[0].port, 6882);
        }
        other => panic!("unexpected result: {:?}", other),
    }
}

#[test]
fn dictionary_peers_missing_fields() {
    let doc = b"ld2:ip8:10.0.0.27:peer id3:abcee";
    let value = bencode::bedecode(doc).unwrap();
    match Peers::from_bencode_type(&value) {
        Err(Error::MissingPeerPort) => {}
        other => panic!("unexpected result: {:?}", other),
    }
    let doc2 = b"ld4:porti1eee";
    let value2 = bencode::bedecode(doc2).unwrap();
    match Peers::from_bencode_type(&value2) {
        Err(Error::MissingPeerId) => {}
        other => panic!("unexpected result: {:?}", other),
    }
}

#[test]
fn percent_encoding_is_byte_by_byte() {
    assert_eq!(percent_encode(b"abc-._~019"), b"abc-._~019".to_vec());
    assert_eq!(percent_encode(&[0x00, 0x1A, 0xE1, 0x20]), b"%00%1A%E1%20".to_vec());
}

#[test]
fn create_request_exact_bytes() {
    let mut info_hash = [0u8; 20];
    for (i, b) in info_hash.iter_mut().enumerate() {
        *b = i as u8;
    }
    let peer_id = *b"-aa-aaaaaaaaaaaaaaaa";
    let request = TrackerRequest::new(info_hash, peer_id, 6881, 0, 0, 32, true, false);
    let bytes = request.create_request(&b"/ann".to_vec(), &b"tracker:80".to_vec());
    let expected: &[u8] = b"GET /ann?info_hash=%00%01%02%03%04%05%06%07%08%09%0A%0B%0C%0D%0E%0F%10%11%12%13&peer_id=-aa-aaaaaaaaaaaaaaaa&port=6881&uploaded=0&downloaded=0&left=32&compact=1 HTTP/1.1\r\nHost: tracker:80\r\nAccept: */*\r\n\r\n";
    assert_eq!(bytes, expected.to_vec());
}

#[test]
fn response_parses_after_http_headers() {
    let mut raw: Vec<u8> = b"HTTP/1.1 200 OK\r\nContent-Type: text/plain\r\n\r\n".to_vec();
    raw.extend_from_slice(b"d8:intervali1800e5:peers6:");
    raw.extend_from_slice(&[0x0A, 0x00, 0x00, 0x01, 0x1A, 0xE1]);
    raw.extend_from_slice(b"e");
    let resp = TrackerResponse::from_bencode(&raw).unwrap();
    assert_eq!(resp.interval(), 1800);
    assert_eq!(resp.min_interval(), None);
    assert_eq!(resp.complete(), None);
    assert_eq!(resp.incomplete(), None);
    match resp.peers() {
        Peers::Binary(peers) => {
            assert_eq!(peers.len(), 1);
            assert_eq!(peers[0].port, 6881);
        }
        other => panic!("unexpected peers: {:?}", other),
    }
}

#[test]
fn response_without_headers_and_with_optionals() {
    let raw = b"d8:completei5e10:incompletei7e8:intervali60e12:min intervali30e5:peers0:10:tracker id2:ide";
    let resp = TrackerResponse::from_bencode(raw).unwrap();
    assert_eq!(resp.interval(), 60);
    assert_eq!(resp.min_interval(), Some(30));
    assert_eq!(resp.complete(), Some(5));
    assert_eq!(resp.incomplete(), Some(7));
    assert_eq!(resp.tracker_id(), Some(&b"id".to_vec()));
    match resp.peers() {
        Peers::Binary(peers) => assert_eq!(peers.len(), 0),
        other => panic!("unexpected peers: {:?}", other),
    }
}

#[test]
fn response_missing_fields() {
    match TrackerResponse::from_bencode(b"d5:peers0:e") {
        Err(Error::MissingInterval) => {}
        other => panic!("unexpected result: {:?}", other),
    }
    match TrackerResponse::from_bencode(b"d8:intervali60ee") {
        Err(Error::MissingPeers) => {}
        other => panic!("unexpected result: {:?}", other),
    }
    match TrackerResponse::from_bencode(b"4spam") {
        Err(Error::DecodingError(bencode::Error::MissingColon)) => {}
        other => panic!("unexpected result: {:?}", other),
    }
}

#[test]
fn retry_decision() {
    assert!(announce_retry(IoKind::ConnectionReset));
    assert!(announce_retry(IoKind::ConnectionAborted));
    assert!(announce_retry(IoKind::PermissionDenied));
    assert!(announce_retry(IoKind::TimedOut));
    assert!(!announce_retry(IoKind::Other));
}

#[test]
fn random_peer_id_is_twenty_bytes() {
    let id = random_peer_id();
    assert_eq!(id.len(), 20);
}

#[test]
fn dictionary_peer_without_ip() {
    let doc = b"ld7:peer id3:abc4:porti1eee";
    let value = bencode::bedecode(doc).unwrap();
    match Peers::from_bencode_type(&value) {
        Err(Error::MissingPeerIp) => {}
        other => panic!("unexpected result: {:?}", other),
    }
}
