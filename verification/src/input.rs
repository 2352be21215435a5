//! Classifying the torrent argument: a magnet link, a hex or base32
//! info-hash, a path to a .torrent file, or a URL to one.  Whether a path
//! names an existing file is the file system's answer; the caller passes it
//! in.

use vstd::prelude::*;
use vstd::string::StringSliceAdditionalSpecFns;

verus! {

/// The recognised shapes of the torrent argument.
#[derive(Debug)]
pub enum TorrentType {
    MagnetLink(String),
    InfoHash(String),
    Base32InfoHash(String),
    TorrentFile(String),
    TorrentFileUrl(String),
}

/// The bytes of `magnet:?xt=urn:btih:`.
pub open spec fn magnet_prefix() -> Seq<u8> {
    seq![109u8, 97, 103, 110, 101, 116, 58, 63, 120, 116, 61, 117, 114, 110, 58, 98, 116, 105, 104, 58]
}

/// The bytes of `.torrent`.
pub open spec fn torrent_suffix() -> Seq<u8> {
    seq![46u8, 116, 111, 114, 114, 101, 110, 116]
}

/// The bytes of `http://`.
pub open spec fn http_prefix() -> Seq<u8> {
    seq![104u8, 116, 116, 112, 58, 47, 47]
}

/// The bytes of `https://`.
pub open spec fn https_prefix() -> Seq<u8> {
    seq![104u8, 116, 116, 112, 115, 58, 47, 47]
}

/// Whether `s` begins with `prefix`.
pub open spec fn has_prefix(s: Seq<u8>, prefix: Seq<u8>) -> bool {
    s.len() >= prefix.len() && s.subrange(0, prefix.len() as int) == prefix
}

/// Whether `s` ends with `suffix`.
pub open spec fn has_suffix(s: Seq<u8>, suffix: Seq<u8>) -> bool {
    s.len() >= suffix.len() && s.subrange(s.len() - suffix.len(), s.len() as int) == suffix
}

fn bytes_have_prefix(b: &[u8], prefix: &Vec<u8>) -> (r: bool)
    ensures
        r == has_prefix(b@, prefix@),
{
    if b.len() < prefix.len() {
        return false;
    }
    let mut i: usize = 0;
    while i < prefix.len()
        invariant
            i <= prefix@.len() <= b@.len(),
            forall|j: int| 0 <= j < i ==> b@[j] == prefix@[j],
        decreases prefix@.len() - i,
    {
        if b[i] != prefix[i] {
            assert(b@.subrange(0, prefix@.len() as int)[i as int] != prefix@[i as int]);
            return false;
        }
        i = i + 1;
    }
    assert(b@.subrange(0, prefix@.len() as int) =~= prefix@);
    true
}

fn bytes_have_suffix(b: &[u8], suffix: &Vec<u8>) -> (r: bool)
    ensures
        r == has_suffix(b@, suffix@),
{
    if b.len() < suffix.len() {
        return false;
    }
    let base = b.len() - suffix.len();
    let mut i: usize = 0;
    while i < suffix.len()
        invariant
            i <= suffix@.len() <= b@.len(),
            b@.len() <= usize::MAX,
            base == b@.len() - suffix@.len(),
            forall|j: int| 0 <= j < i ==> b@[base + j] == suffix@[j],
        decreases suffix@.len() - i,
    {
        if b[base + i] != suffix[i] {
            assert(b@.subrange(b@.len() - suffix@.len(), b@.len() as int)[i as int]
                != suffix@[i as int]);
            return false;
        }
        i = i + 1;
    }
    assert(b@.subrange(b@.len() - suffix@.len(), b@.len() as int) =~= suffix@);
    true
}

fn kb_magnet() -> (r: Vec<u8>)
    ensures
        r@ == magnet_prefix(),
{
    let v: Vec<u8> = vec![
        109u8, 97, 103, 110, 101, 116, 58, 63, 120, 116, 61, 117, 114, 110, 58, 98, 116, 105,
        104, 58,
    ];
    assert(v@ =~= magnet_prefix());
    v
}

fn kb_torrent_suffix() -> (r: Vec<u8>)
    ensures
        r@ == torrent_suffix(),
{
    let v: Vec<u8> = vec![46u8, 116, 111, 114, 114, 101, 110, 116];
    assert(v@ =~= torrent_suffix());
    v
}

fn kb_http() -> (r: Vec<u8>)
    ensures
        r@ == http_prefix(),
{
    let v: Vec<u8> = vec![104u8, 116, 116, 112, 58, 47, 47];
    assert(v@ =~= http_prefix());
    v
}

fn kb_https() -> (r: Vec<u8>)
    ensures
        r@ == https_prefix(),
{
    let v: Vec<u8> = vec![104u8, 116, 116, 112, 115, 58, 47, 47];
    assert(v@ =~= https_prefix());
    v
}

/// An ASCII hex digit.
pub open spec fn is_hex_byte(b: u8) -> bool {
    (48 <= b <= 57) || (65 <= b <= 70) || (97 <= b <= 102)
}

/// An RFC 4648 base32 alphabet byte: `A`-`Z` or `2`-`7`.
pub open spec fn is_base32_byte(b: u8) -> bool {
    (65 <= b <= 90) || (50 <= b <= 55)
}

/// Whether the argument is a magnet link.
pub fn is_magnet_link(value: &str) -> (r: bool)
    ensures
        r == has_prefix(value.spec_bytes(), magnet_prefix()),
{
    bytes_have_prefix(value.as_bytes(), &kb_magnet())
}

/// Whether the argument is a 40-digit hex info-hash.
pub fn is_info_hash(value: &str) -> (r: bool)
    ensures
        r == (value.spec_bytes().len() == 40 && (forall|i: int|
            0 <= i < 40 ==> is_hex_byte(#[trigger] value.spec_bytes()[i]))),
{
    let b = value.as_bytes();
    if b.len() != 40 {
        return false;
    }
    let mut i: usize = 0;
    while i < 40
        invariant
            i <= 40,
            b@.len() == 40,
            b@ == value.spec_bytes(),
            forall|j: int| 0 <= j < i ==> is_hex_byte(#[trigger] b@[j]),
        decreases 40 - i,
    {
        let c = b[i];
        let hex = (48 <= c && c <= 57) || (65 <= c && c <= 70) || (97 <= c && c <= 102);
        if !hex {
            return false;
        }
        i = i + 1;
    }
    true
}

/// Whether the argument names an existing .torrent file; whether the path
/// names an existing file is the file system's answer, passed in by the
/// caller.
pub fn is_torrent_file(value: &str, exists_as_file: bool) -> (r: bool)
    ensures
        r == (exists_as_file && has_suffix(value.spec_bytes(), torrent_suffix())),
{
    exists_as_file && bytes_have_suffix(value.as_bytes(), &kb_torrent_suffix())
}

/// Whether the argument is an HTTP(S) URL to a .torrent file.
pub fn is_torrent_file_url(value: &str) -> (r: bool)
    ensures
        r == ((has_prefix(value.spec_bytes(), http_prefix()) || has_prefix(
            value.spec_bytes(),
            https_prefix(),
        )) && has_suffix(value.spec_bytes(), torrent_suffix())),
{
    let b = value.as_bytes();
    (bytes_have_prefix(b, &kb_http()) || bytes_have_prefix(b, &kb_https()))
        && bytes_have_suffix(b, &kb_torrent_suffix())
}

/// Whether the argument is a 32-character base32 info-hash.
pub fn is_base32_info_hash(value: &str) -> (r: bool)
    ensures
        r == (value.spec_bytes().len() == 32 && (forall|i: int|
            0 <= i < 32 ==> is_base32_byte(#[trigger] value.spec_bytes()[i]))),
{
    let b = value.as_bytes();
    if b.len() != 32 {
        return false;
    }
    let mut i: usize = 0;
    while i < 32
        invariant
            i <= 32,
            b@.len() == 32,
            b@ == value.spec_bytes(),
            forall|j: int| 0 <= j < i ==> is_base32_byte(#[trigger] b@[j]),
        decreases 32 - i,
    {
        let c = b[i];
        let b32 = (65 <= c && c <= 90) || (50 <= c && c <= 55);
        if !b32 {
            return false;
        }
        i = i + 1;
    }
    true
}

impl TorrentType {
    /// Classifies the argument, trying the shapes in a fixed order: magnet
    /// link, existing .torrent file, .torrent URL, hex info-hash, base32
    /// info-hash.
    pub fn classify(value: &str, exists_as_file: bool) -> (r: Result<TorrentType, ()>)
        ensures
            ({
                let s = value.spec_bytes();
                if has_prefix(s, magnet_prefix()) {
                    r matches Ok(TorrentType::MagnetLink(v)) && v@ == value@
                } else if exists_as_file && has_suffix(s, torrent_suffix()) {
                    r matches Ok(TorrentType::TorrentFile(v)) && v@ == value@
                } else if (has_prefix(s, http_prefix()) || has_prefix(s, https_prefix()))
                    && has_suffix(s, torrent_suffix()) {
                    r matches Ok(TorrentType::TorrentFileUrl(v)) && v@ == value@
                } else if s.len() == 40 && (forall|i: int|
                    0 <= i < 40 ==> is_hex_byte(#[trigger] s[i])) {
                    r matches Ok(TorrentType::InfoHash(v)) && v@ == value@
                } else if s.len() == 32 && (forall|i: int|
                    0 <= i < 32 ==> is_base32_byte(#[trigger] s[i])) {
                    r matches Ok(TorrentType::Base32InfoHash(v)) && v@ == value@
                } else {
                    r is Err
                }
            }),
    {
        if is_magnet_link(value) {
            Ok(TorrentType::MagnetLink(value.to_owned()))
        } else if is_torrent_file(value, exists_as_file) {
            Ok(TorrentType::TorrentFile(value.to_owned()))
        } else if is_torrent_file_url(value) {
            Ok(TorrentType::TorrentFileUrl(value.to_owned()))
        } else if is_info_hash(value) {
            Ok(TorrentType::InfoHash(value.to_owned()))
        } else if is_base32_info_hash(value) {
            Ok(TorrentType::Base32InfoHash(value.to_owned()))
        } else {
            Err(())
        }
    }
}

} // verus!
