//! Metainfo decoding, including the raw-slice info-hash.

use torrent_client::bencode;
use torrent_client::metainfo::{CreationDate, Error, FileMode, MetaInfo};

fn single_file_doc() -> Vec<u8> {
    let mut doc: Vec<u8> = b"d8:announce18:http://tracker/ann4:info".to_vec();
    doc.extend_from_slice(b"d6:lengthi32e4:name4:file12:piece lengthi32e6:pieces20:");
    let mut digests: Vec<u8> = Vec::new();
    for i in 0..20u8 {
        digests.push(i);
    }
    doc.extend_from_slice(&digests);
    doc.extend_from_slice(b"ee");
    doc
}

#[test]
fn decodes_single_file_metainfo() {
    let doc = single_file_doc();
    let m = MetaInfo::from_bencode(&doc).unwrap();
    assert_eq!(m.announce(), &b"http://tracker/ann".to_vec());
    assert_eq!(m.info().piece_length(), 32);
    assert_eq!(m.info().name(), &b"file".to_vec());
    assert_eq!(m.info().pieces().len(), 1);
    let mut digest: Vec<u8> = Vec::new();
    for i in 0..20u8 {
        digest.push(i);
    }
    assert_eq!(m.info().pieces()[0], digest);
    assert_eq!(m.info().private(), &None);
    match m.info().mode() {
        FileMode::SingleFile { length, md5sum } => {
            assert_eq!(*length, 32);
            assert!(md5sum.is_none());
        }
        other => panic!("unexpected mode: {:?}", other),
    }
    // SHA-1 of the raw `info` subtree bytes, computed independently.
    let expected_hash: [u8; 20] = [
        215, 160, 186, 160, 145, 6, 10, 42, 253, 163, 45, 190, 83, 242, 180, 191, 4, 127, 72,
        149,
    ];
    assert_eq!(m.info_hash(), &expected_hash);
    assert_eq!(m.announce_list(), None);
    assert_eq!(m.creation_date(), None);
    assert_eq!(m.comment(), None);
    assert_eq!(m.created_by(), None);
    assert_eq!(m.encoding(), None);
}

#[test]
fn info_hash_agrees_with_direct_sha1() {
    // The same digest through the library's own hashing path: the raw
    // bytes of the info subtree are `doc[38..114]`.
    let doc = single_file_doc();
    let info_raw = &doc[38..114];
    assert_eq!(info_raw[0], b'd');
    assert_eq!(info_raw[info_raw.len() - 1], b'e');
    let direct = torrent_client::digest::sha1_digest(info_raw);
    let m = MetaInfo::from_bencode(&doc).unwrap();
    assert_eq!(m.info_hash(), &direct);
}

#[test]
fn optional_fields_decode() {
    let mut doc: Vec<u8> = b"d8:announce3:url7:comment2:hi10:created by2:me13:creation datei1700000000e8:encoding5:UTF-84:info".to_vec();
    doc.extend_from_slice(b"d6:lengthi1e4:name1:f12:piece lengthi1e6:pieces20:");
    doc.extend_from_slice(&[0u8; 20]);
    doc.extend_from_slice(b"ee");
    let m = MetaInfo::from_bencode(&doc).unwrap();
    assert_eq!(m.comment(), Some(&b"hi".to_vec()));
    assert_eq!(m.created_by(), Some(&b"me".to_vec()));
    assert_eq!(m.creation_date(), Some(&CreationDate(1_700_000_000)));
    assert_eq!(m.encoding(), Some(&b"UTF-8".to_vec()));
}

#[test]
fn multi_file_mode() {
    let mut doc: Vec<u8> = b"d8:announce3:url4:info".to_vec();
    doc.extend_from_slice(b"d5:filesld6:lengthi7e4:pathl3:dir5:a.txteee4:name1:d12:piece lengthi4e6:pieces20:");
    doc.extend_from_slice(&[0u8; 20]);
    doc.extend_from_slice(b"ee");
    let m = MetaInfo::from_bencode(&doc).unwrap();
    match m.info().mode() {
        FileMode::MultipleFiles { files } => {
            assert_eq!(files.len(), 1);
            assert_eq!(files[0].lenght(), 7);
            assert_eq!(files[0].path(), &vec![b"dir".to_vec(), b"a.txt".to_vec()]);
            assert!(files[0].md5sum().is_none());
        }
        other => panic!("unexpected mode: {:?}", other),
    }
}

#[test]
fn error_cases() {
    // No info entry at all.
    assert_eq!(
        MetaInfo::from_bencode(b"d8:announce3:urle"),
        Err(Error::MissingInfo)
    );
    // info present but missing its piece length.
    let mut doc: Vec<u8> = b"d8:announce3:url4:info".to_vec();
    doc.extend_from_slice(b"d6:lengthi1e4:name1:fe");
    doc.extend_from_slice(b"e");
    assert_eq!(MetaInfo::from_bencode(&doc), Err(Error::MissingPieceLength));
    // A digest table that is not a multiple of twenty bytes.
    let mut doc2: Vec<u8> = b"d8:announce3:url4:info".to_vec();
    doc2.extend_from_slice(b"d6:lengthi1e4:name1:f12:piece lengthi1e6:pieces3:abcee");
    assert_eq!(MetaInfo::from_bencode(&doc2), Err(Error::MissingPieces));
    // Announce missing.
    let mut doc3: Vec<u8> = b"d4:info".to_vec();
    doc3.extend_from_slice(b"d6:lengthi1e4:name1:f12:piece lengthi1e6:pieces20:");
    doc3.extend_from_slice(&[0u8; 20]);
    doc3.extend_from_slice(b"ee");
    assert_eq!(MetaInfo::from_bencode(&doc3), Err(Error::MissingInfo));
    // Zero piece length is rejected: pieces must have a positive size.
    let mut doc4: Vec<u8> = b"d8:announce3:url4:info".to_vec();
    doc4.extend_from_slice(b"d6:lengthi1e4:name1:f12:piece lengthi0e6:pieces20:");
    doc4.extend_from_slice(&[0u8; 20]);
    doc4.extend_from_slice(b"ee");
    assert_eq!(MetaInfo::from_bencode(&doc4), Err(Error::MissingPieceLength));
    // A malformed creation date.
    let mut doc5: Vec<u8> = b"d8:announce3:url13:creation datei99999999999999999999999e4:info".to_vec();
    doc5.extend_from_slice(b"d6:lengthi1e4:name1:f12:piece lengthi1e6:pieces20:");
    doc5.extend_from_slice(&[0u8; 20]);
    doc5.extend_from_slice(b"ee");
    assert_eq!(MetaInfo::from_bencode(&doc5), Err(Error::MalformedTimestamp));
    // A single-file info without a length.
    let mut doc6: Vec<u8> = b"d8:announce3:url4:info".to_vec();
    doc6.extend_from_slice(b"d4:name1:f12:piece lengthi1e6:pieces20:");
    doc6.extend_from_slice(&[0u8; 20]);
    doc6.extend_from_slice(b"ee");
    assert_eq!(MetaInfo::from_bencode(&doc6), Err(Error::MissingLength));
    // A file entry without a path.
    let mut doc7: Vec<u8> = b"d8:announce3:url4:info".to_vec();
    doc7.extend_from_slice(b"d5:filesld6:lengthi7eee4:name1:d12:piece lengthi4e6:pieces20:");
    doc7.extend_from_slice(&[0u8; 20]);
    doc7.extend_from_slice(b"ee");
    assert_eq!(MetaInfo::from_bencode(&doc7), Err(Error::MissingPath));
    // A bad md5sum length.
    let mut doc8: Vec<u8> = b"d8:announce3:url4:info".to_vec();
    doc8.extend_from_slice(b"d6:lengthi1e6:md5sum2:xx4:name1:f12:piece lengthi1e6:pieces20:");
    doc8.extend_from_slice(&[0u8; 20]);
    doc8.extend_from_slice(b"ee");
    assert_eq!(MetaInfo::from_bencode(&doc8), Err(Error::MissingMd5Sum));
    // Plain decode errors surface wrapped.
    assert_eq!(
        MetaInfo::from_bencode(b"ie"),
        Err(Error::DecodingError(bencode::Error::EmptyInteger))
    );
    assert_eq!(
        MetaInfo::from_bencode(b"i10e"),
        Err(Error::DecodingError(bencode::Error::ExpectedMap))
    );
}

#[test]
fn private_flag_mapping() {
    for (text, expected) in [(&b"i0e"[..], Some(false)), (&b"i1e"[..], Some(true))] {
        let mut doc: Vec<u8> = b"d8:announce3:url4:info".to_vec();
        doc.extend_from_slice(b"d6:lengthi1e4:name1:f12:piece lengthi1e6:pieces20:");
        doc.extend_from_slice(&[0u8; 20]);
        doc.extend_from_slice(b"7:private");
        doc.extend_from_slice(text);
        doc.extend_from_slice(b"ee");
        let m = MetaInfo::from_bencode(&doc).unwrap();
        assert_eq!(m.info().private(), &expected);
    }
}

#[test]
fn missing_name_is_fatal() {
    let mut doc: Vec<u8> = b"d8:announce3:url4:info".to_vec();
    doc.extend_from_slice(b"d6:lengthi1e12:piece lengthi1e6:pieces20:");
    doc.extend_from_slice(&[0u8; 20]);
    doc.extend_from_slice(b"ee");
    assert_eq!(MetaInfo::from_bencode(&doc), Err(Error::MissingName));
}
