//! Classification of the torrent argument.

use torrent_client::input::{
    is_base32_info_hash, is_info_hash, is_magnet_link, is_torrent_file, is_torrent_file_url,
    TorrentType,
};

#[test]
fn magnet_links() {
    assert!(is_magnet_link("magnet:?xt=urn:btih:0123456789abcdef"));
    assert!(!is_magnet_link("http://example/a.torrent"));
    assert!(!is_magnet_link(""));
}

#[test]
fn hex_info_hashes() {
    assert!(is_info_hash("0123456789abcdef0123456789ABCDEF01234567"));
    assert!(!is_info_hash("0123456789abcdef0123456789ABCDEF0123456"));
    assert!(!is_info_hash("0123456789abcdef0123456789ABCDEF0123456g"));
}

#[test]
fn base32_info_hashes() {
    assert!(is_base32_info_hash("ABCDEFGHIJKLMNOPQRSTUVWXYZ234567"));
    assert!(!is_base32_info_hash("ABCDEFGHIJKLMNOPQRSTUVWXYZ23456"));
    assert!(!is_base32_info_hash("abcdefghijklmnopqrstuvwxyz234567"));
}

#[test]
fn torrent_files_and_urls() {
    assert!(is_torrent_file("a.torrent", true));
    assert!(!is_torrent_file("a.torrent", false));
    assert!(!is_torrent_file("a.txt", true));
    assert!(is_torrent_file_url("http://example/a.torrent"));
    assert!(is_torrent_file_url("https://example/a.torrent"));
    assert!(!is_torrent_file_url("ftp://example/a.torrent"));
    assert!(!is_torrent_file_url("https://example/a.txt"));
}

#[test]
fn classification_order() {
    match TorrentType::classify("magnet:?xt=urn:btih:abc", false) {
        Ok(TorrentType::MagnetLink(v)) => assert_eq!(v, "magnet:?xt=urn:btih:abc"),
        other => panic!("unexpected: {:?}", other),
    }
    match TorrentType::classify("a.torrent", true) {
        Ok(TorrentType::TorrentFile(v)) => assert_eq!(v, "a.torrent"),
        other => panic!("unexpected: {:?}", other),
    }
    match TorrentType::classify("http://h/a.torrent", false) {
        Ok(TorrentType::TorrentFileUrl(v)) => assert_eq!(v, "http://h/a.torrent"),
        other => panic!("unexpected: {:?}", other),
    }
    match TorrentType::classify("0123456789abcdef0123456789ABCDEF01234567", false) {
        Ok(TorrentType::InfoHash(_)) => {}
        other => panic!("unexpected: {:?}", other),
    }
    match TorrentType::classify("ABCDEFGHIJKLMNOPQRSTUVWXYZ234567", false) {
        Ok(TorrentType::Base32InfoHash(_)) => {}
        other => panic!("unexpected: {:?}", other),
    }
    assert!(TorrentType::classify("not a torrent", false).is_err());
}
