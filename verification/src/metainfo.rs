//! The metainfo (.torrent) model: a typed descriptor decoded from bencode,
//! with the info-hash computed over the raw bytes of the `info` subtree.

use crate::bencode;
use crate::bencode::{
    all_digits, dict_find, dict_get, digits_val, encoded, int_text_val, is_int_text,
    node_of, parse_i64_text, parse_u32_digits, parse_u64_digits, parse_value, pair_views_of,
    raw_of, raws_ok, spec_parse, Node, Type,
};
use crate::digest::{sha1_digest, sha1_of};
use vstd::prelude::*;

verus! {

broadcast use crate::bencode::lemma_digits_val_nonneg;

/// Everything that can go wrong while reading a .torrent descriptor.
#[derive(Debug, Clone, Copy, PartialEq, Eq, Structural)]
pub enum Error {
    MissingInfo,
    MissingPieceLength,
    MissingPieces,
    MissingName,
    MissingMd5Sum,
    MalformedTimestamp,
    MissingLength,
    MissingPath,
    DecodingError(bencode::Error),
}

/// A creation timestamp, in whole seconds since the Unix epoch.
#[derive(Debug, Clone, Copy, PartialEq, Eq, Structural)]
pub struct CreationDate(pub i64);

/// One file of a multi-file info dictionary.  Path segments are kept as the
/// byte strings the descriptor holds.
#[derive(Debug, PartialEq, Eq)]
pub struct File {
    pub length: u32,
    pub md5sum: Option<Vec<u8>>,
    pub path: Vec<Vec<u8>>,
}

impl File {
    pub fn lenght(&self) -> (r: u32)
        ensures
            r == self.length,
    {
        self.length
    }

    pub fn md5sum(&self) -> (r: Option<&Vec<u8>>)
        ensures
            match r {
                Some(m) => self.md5sum matches Some(v) && v == m,
                None => self.md5sum is None,
            },
    {
        self.md5sum.as_ref()
    }

    pub fn path(&self) -> (r: &Vec<Vec<u8>>)
        ensures
            r == &self.path,
    {
        &self.path
    }
}

/// How the content is laid out on disk.
#[derive(Debug, PartialEq, Eq)]
pub enum FileMode {
    MultipleFiles { files: Vec<File> },
    SingleFile { length: u64, md5sum: Option<Vec<u8>> },
}

/// The `info` dictionary: piece size, the table of 20-byte piece digests,
/// the advisory private flag, the name, and the file layout.
#[derive(Debug, PartialEq, Eq)]
pub struct Info {
    pub piece_length: u32,
    pub pieces: Vec<Vec<u8>>,
    pub private: Option<bool>,
    pub name: Vec<u8>,
    pub mode: FileMode,
}

impl Info {
    pub fn piece_length(&self) -> (r: u32)
        ensures
            r == self.piece_length,
    {
        self.piece_length
    }

    pub fn pieces(&self) -> (r: &Vec<Vec<u8>>)
        ensures
            r == &self.pieces,
    {
        &self.pieces
    }

    pub fn private(&self) -> (r: &Option<bool>)
        ensures
            r == &self.private,
    {
        &self.private
    }

    pub fn name(&self) -> (r: &Vec<u8>)
        ensures
            r == &self.name,
    {
        &self.name
    }

    pub fn mode(&self) -> (r: &FileMode)
        ensures
            r == &self.mode,
    {
        &self.mode
    }
}

/// A decoded .torrent descriptor.
#[derive(Debug, PartialEq, Eq)]
pub struct MetaInfo {
    pub info_hash: [u8; 20],
    pub info: Info,
    pub announce: Vec<u8>,
    pub announce_list: Option<Vec<Vec<Vec<u8>>>>,
    pub creation_date: Option<CreationDate>,
    pub comment: Option<Vec<u8>>,
    pub created_by: Option<Vec<u8>>,
    pub encoding: Option<Vec<u8>>,
}

pub open spec fn key_info() -> Seq<u8> {
    seq![105u8, 110, 102, 111]
}

pub open spec fn key_announce() -> Seq<u8> {
    seq![97u8, 110, 110, 111, 117, 110, 99, 101]
}

pub open spec fn key_announce_list() -> Seq<u8> {
    seq![97u8, 110, 110, 111, 117, 110, 99, 101, 45, 108, 105, 115, 116]
}

pub open spec fn key_creation_date() -> Seq<u8> {
    seq![99u8, 114, 101, 97, 116, 105, 111, 110, 32, 100, 97, 116, 101]
}

pub open spec fn key_comment() -> Seq<u8> {
    seq![99u8, 111, 109, 109, 101, 110, 116]
}

pub open spec fn key_created_by() -> Seq<u8> {
    seq![99u8, 114, 101, 97, 116, 101, 100, 32, 98, 121]
}

pub open spec fn key_encoding() -> Seq<u8> {
    seq![101u8, 110, 99, 111, 100, 105, 110, 103]
}

pub open spec fn key_piece_length() -> Seq<u8> {
    seq![112u8, 105, 101, 99, 101, 32, 108, 101, 110, 103, 116, 104]
}

pub open spec fn key_pieces() -> Seq<u8> {
    seq![112u8, 105, 101, 99, 101, 115]
}

pub open spec fn key_private() -> Seq<u8> {
    seq![112u8, 114, 105, 118, 97, 116, 101]
}

pub open spec fn key_name() -> Seq<u8> {
    seq![110u8, 97, 109, 101]
}

pub open spec fn key_length() -> Seq<u8> {
    seq![108u8, 101, 110, 103, 116, 104]
}

pub open spec fn key_md5sum() -> Seq<u8> {
    seq![109u8, 100, 53, 115, 117, 109]
}

pub open spec fn key_files() -> Seq<u8> {
    seq![102u8, 105, 108, 101, 115]
}

pub open spec fn key_path() -> Seq<u8> {
    seq![112u8, 97, 116, 104]
}

fn kb_info() -> (r: Vec<u8>)
    ensures
        r@ == key_info(),
{
    let v: Vec<u8> = vec![105u8, 110, 102, 111];
    assert(v@ =~= key_info());
    v
}

fn kb_announce() -> (r: Vec<u8>)
    ensures
        r@ == key_announce(),
{
    let v: Vec<u8> = vec![97u8, 110, 110, 111, 117, 110, 99, 101];
    assert(v@ =~= key_announce());
    v
}

fn kb_announce_list() -> (r: Vec<u8>)
    ensures
        r@ == key_announce_list(),
{
    let v: Vec<u8> = vec![97u8, 110, 110, 111, 117, 110, 99, 101, 45, 108, 105, 115, 116];
    assert(v@ =~= key_announce_list());
    v
}

fn kb_creation_date() -> (r: Vec<u8>)
    ensures
        r@ == key_creation_date(),
{
    let v: Vec<u8> = vec![99u8, 114, 101, 97, 116, 105, 111, 110, 32, 100, 97, 116, 101];
    assert(v@ =~= key_creation_date());
    v
}

fn kb_comment() -> (r: Vec<u8>)
    ensures
        r@ == key_comment(),
{
    let v: Vec<u8> = vec![99u8, 111, 109, 109, 101, 110, 116];
    assert(v@ =~= key_comment());
    v
}

fn kb_created_by() -> (r: Vec<u8>)
    ensures
        r@ == key_created_by(),
{
    let v: Vec<u8> = vec![99u8, 114, 101, 97, 116, 101, 100, 32, 98, 121];
    assert(v@ =~= key_created_by());
    v
}

fn kb_encoding() -> (r: Vec<u8>)
    ensures
        r@ == key_encoding(),
{
    let v: Vec<u8> = vec![101u8, 110, 99, 111, 100, 105, 110, 103];
    assert(v@ =~= key_encoding());
    v
}

fn kb_piece_length() -> (r: Vec<u8>)
    ensures
        r@ == key_piece_length(),
{
    let v: Vec<u8> = vec![112u8, 105, 101, 99, 101, 32, 108, 101, 110, 103, 116, 104];
    assert(v@ =~= key_piece_length());
    v
}

fn kb_pieces() -> (r: Vec<u8>)
    ensures
        r@ == key_pieces(),
{
    let v: Vec<u8> = vec![112u8, 105, 101, 99, 101, 115];
    assert(v@ =~= key_pieces());
    v
}

fn kb_private() -> (r: Vec<u8>)
    ensures
        r@ == key_private(),
{
    let v: Vec<u8> = vec![112u8, 114, 105, 118, 97, 116, 101];
    assert(v@ =~= key_private());
    v
}

fn kb_name() -> (r: Vec<u8>)
    ensures
        r@ == key_name(),
{
    let v: Vec<u8> = vec![110u8, 97, 109, 101];
    assert(v@ =~= key_name());
    v
}

fn kb_length() -> (r: Vec<u8>)
    ensures
        r@ == key_length(),
{
    let v: Vec<u8> = vec![108u8, 101, 110, 103, 116, 104];
    assert(v@ =~= key_length());
    v
}

fn kb_md5sum() -> (r: Vec<u8>)
    ensures
        r@ == key_md5sum(),
{
    let v: Vec<u8> = vec![109u8, 100, 53, 115, 117, 109];
    assert(v@ =~= key_md5sum());
    v
}

fn kb_files() -> (r: Vec<u8>)
    ensures
        r@ == key_files(),
{
    let v: Vec<u8> = vec![102u8, 105, 108, 101, 115];
    assert(v@ =~= key_files());
    v
}

fn kb_path() -> (r: Vec<u8>)
    ensures
        r@ == key_path(),
{
    let v: Vec<u8> = vec![112u8, 97, 116, 104];
    assert(v@ =~= key_path());
    v
}

/// The byte-string stored under `key`, when the entry exists and is a byte
/// string.
pub open spec fn str_field(ps: Seq<(Node, Node)>, key: Seq<u8>) -> Option<Seq<u8>> {
    match dict_get(ps, key) {
        Some(Node::ByteString(b)) => Some(b),
        _ => None,
    }
}

/// The integer text stored under `key`, when the entry exists and is an
/// integer.
pub open spec fn int_field(ps: Seq<(Node, Node)>, key: Seq<u8>) -> Option<Seq<u8>> {
    match dict_get(ps, key) {
        Some(Node::Integer(d)) => Some(d),
        _ => None,
    }
}

/// The list stored under `key`, when the entry exists and is a list.
pub open spec fn list_field(ps: Seq<(Node, Node)>, key: Seq<u8>) -> Option<Seq<Node>> {
    match dict_get(ps, key) {
        Some(Node::List(l)) => Some(l),
        _ => None,
    }
}

/// An integer text under `key` that reads as a decimal value in `[lo, hi]`.
pub open spec fn uint_field_ok(ps: Seq<(Node, Node)>, key: Seq<u8>, lo: int, hi: int) -> bool {
    int_field(ps, key) matches Some(d) && all_digits(d) && d.len() >= 1 && lo <= digits_val(d)
        <= hi
}

/// The value of such an integer field.
pub open spec fn uint_field_val(ps: Seq<(Node, Node)>, key: Seq<u8>) -> int {
    match int_field(ps, key) {
        Some(d) => digits_val(d),
        None => 0,
    }
}

/// A well-formed `md5sum` entry: absent, or a 16-byte string.
pub open spec fn md5_ok(ps: Seq<(Node, Node)>) -> bool {
    match str_field(ps, key_md5sum()) {
        Some(b) => b.len() == 16,
        None => true,
    }
}

/// How a decoded `md5sum` field relates to its entry.
pub open spec fn md5_matches(ps: Seq<(Node, Node)>, m: Option<Vec<u8>>) -> bool {
    match str_field(ps, key_md5sum()) {
        Some(b) => m matches Some(v) && v@ == b,
        None => m is None,
    }
}

/// A well-formed file entry of `info.files`.
pub open spec fn file_fields_ok(fps: Seq<(Node, Node)>) -> bool {
    &&& uint_field_ok(fps, key_length(), 0, u32::MAX as int)
    &&& md5_ok(fps)
    &&& list_field(fps, key_path()) matches Some(pl) && (forall|i: int|
        0 <= i < pl.len() ==> (#[trigger] pl[i]) is ByteString)
}

pub open spec fn file_node_ok(n: Node) -> bool {
    n matches Node::Dict(fps) && file_fields_ok(fps)
}

/// The error a malformed file entry produces.
pub open spec fn file_node_error(n: Node) -> Error {
    match n {
        Node::Dict(fps) => if !uint_field_ok(fps, key_length(), 0, u32::MAX as int) {
            Error::MissingLength
        } else if !md5_ok(fps) {
            Error::MissingMd5Sum
        } else {
            match list_field(fps, key_path()) {
                None => Error::MissingPath,
                Some(_) => Error::DecodingError(bencode::Error::ExpectedString),
            }
        },
        _ => Error::DecodingError(bencode::Error::ExpectedMap),
    }
}

/// A list element that is the byte string `s`.
pub open spec fn path_elem_matches(n: Node, s: Seq<u8>) -> bool {
    n matches Node::ByteString(b) && s == b
}

/// How a decoded [`File`] relates to its entry.
pub open spec fn file_matches(n: Node, f: File) -> bool {
    &&& n matches Node::Dict(fps)
    &&& f.length == uint_field_val(n->Dict_0, key_length())
    &&& md5_matches(n->Dict_0, f.md5sum)
    &&& list_field(n->Dict_0, key_path()) matches Some(pl) && f.path.deep_view().len() == pl.len()
        && (forall|i: int|
        0 <= i < pl.len() ==> path_elem_matches(#[trigger] pl[i], f.path.deep_view()[i]))
}

pub open spec fn files_ok(ns: Seq<Node>) -> bool {
    forall|i: int| 0 <= i < ns.len() ==> file_node_ok(#[trigger] ns[i])
}

/// The error of the first malformed file entry.
pub open spec fn files_error(ns: Seq<Node>) -> Error
    decreases ns.len(),
{
    if ns.len() == 0 {
        arbitrary()
    } else if !file_node_ok(ns[0]) {
        file_node_error(ns[0])
    } else {
        files_error(ns.drop_first())
    }
}

proof fn lemma_files_error_at(ns: Seq<Node>, i: int)
    requires
        0 <= i < ns.len(),
        forall|j: int| 0 <= j < i ==> file_node_ok(#[trigger] ns[j]),
        !file_node_ok(ns[i]),
    ensures
        files_error(ns) == file_node_error(ns[i]),
    decreases i,
{
    if i == 0 {
    } else {
        assert(ns.drop_first()[i - 1] == ns[i]);
        assert(forall|j: int| 0 <= j < i - 1 ==> ns.drop_first()[j] == ns[j + 1]);
        lemma_files_error_at(ns.drop_first(), i - 1);
    }
}

/// A well-formed `info` dictionary: a positive 32-bit piece length, a digest
/// table whose byte length is a multiple of 20, a name, a well-formed
/// optional md5 sum, and either a well-formed file list or a 64-bit length.
pub open spec fn info_ok(ips: Seq<(Node, Node)>) -> bool {
    &&& uint_field_ok(ips, key_piece_length(), 1, u32::MAX as int)
    &&& str_field(ips, key_pieces()) matches Some(b) && b.len() % 20 == 0
    &&& str_field(ips, key_name()) is Some
    &&& md5_ok(ips)
    &&& match list_field(ips, key_files()) {
        Some(l) => files_ok(l),
        None => uint_field_ok(ips, key_length(), 0, u64::MAX as int),
    }
}

/// The error a malformed `info` dictionary produces, checked in a fixed
/// order.
pub open spec fn info_error(ips: Seq<(Node, Node)>) -> Error {
    if !uint_field_ok(ips, key_piece_length(), 1, u32::MAX as int) {
        Error::MissingPieceLength
    } else if !(str_field(ips, key_pieces()) matches Some(b) && b.len() % 20 == 0) {
        Error::MissingPieces
    } else if str_field(ips, key_name()) is None {
        Error::MissingName
    } else if !md5_ok(ips) {
        Error::MissingMd5Sum
    } else {
        match list_field(ips, key_files()) {
            Some(l) => files_error(l),
            None => Error::MissingLength,
        }
    }
}

/// The digest table split into 20-byte digests, in order.
pub open spec fn digests_match(ds: Seq<Seq<u8>>, b: Seq<u8>) -> bool {
    &&& ds.len() == b.len() / 20
    &&& forall|i: int| 0 <= i < ds.len() ==> #[trigger] ds[i] == b.subrange(20 * i, 20 * i + 20)
}

/// How a decoded [`Info`] relates to its dictionary.
pub open spec fn info_matches(ips: Seq<(Node, Node)>, info: Info) -> bool {
    &&& info.piece_length == uint_field_val(ips, key_piece_length())
    &&& str_field(ips, key_pieces()) matches Some(b) && digests_match(info.pieces.deep_view(), b)
    &&& str_field(ips, key_name()) matches Some(nm) && info.name@ == nm
    &&& match int_field(ips, key_private()) {
        Some(d) => info.private == Some(d != seq![48u8]),
        None => info.private is None,
    }
    &&& match list_field(ips, key_files()) {
        Some(l) => info.mode matches FileMode::MultipleFiles { files } && files@.len() == l.len()
            && (forall|i: int| 0 <= i < l.len() ==> file_matches(#[trigger] l[i], files@[i])),
        None => info.mode matches FileMode::SingleFile { length, md5sum } && length
            == uint_field_val(ips, key_length()) && md5_matches(ips, md5sum),
    }
}

impl File {
    /// Reads one file entry of `info.files`.
    #[verifier::loop_isolation(false)]
    pub fn from_bencode_type(value: &Type) -> (r: Result<File, Error>)
        ensures
            match r {
                Ok(f) => file_node_ok(node_of(*value)) && file_matches(node_of(*value), f),
                Err(e) => !file_node_ok(node_of(*value)) && e == file_node_error(node_of(*value)),
            },
    {
        let pairs = match value {
            Type::Dict(pairs, _) => pairs,
            _ => {
                return Err(Error::DecodingError(bencode::Error::ExpectedMap));
            },
        };
        let ghost fps = node_of(*value)->Dict_0;
        assert(fps == pair_views_of(pairs@));
        let length = match dict_find(pairs, &kb_length()) {
            Some(t) => match t {
                Type::Integer(d, _) => match parse_u32_digits(d) {
                    Some(v) => v,
                    None => {
                        return Err(Error::MissingLength);
                    },
                },
                _ => {
                    return Err(Error::MissingLength);
                },
            },
            None => {
                return Err(Error::MissingLength);
            },
        };
        let md5sum = match dict_find(pairs, &kb_md5sum()) {
            Some(t) => match t {
                Type::String(b, _) => {
                    if b.len() != 16 {
                        return Err(Error::MissingMd5Sum);
                    }
                    Some(vstd::slice::slice_to_vec(b.as_slice()))
                },
                _ => None,
            },
            None => None,
        };
        let path_list = match dict_find(pairs, &kb_path()) {
            Some(t) => match t {
                Type::List(l, _) => l,
                _ => {
                    return Err(Error::MissingPath);
                },
            },
            None => {
                return Err(Error::MissingPath);
            },
        };
        let ghost pl = crate::bencode::views_of(path_list@);
        assert(list_field(fps, key_path()) == Some(pl));
        let mut path: Vec<Vec<u8>> = Vec::new();
        let mut i: usize = 0;
        while i < path_list.len()
            invariant
                i <= path_list@.len(),
                pl == crate::bencode::views_of(path_list@),
                pl.len() == path_list@.len(),
                path.deep_view().len() == i,
                forall|j: int|
                    0 <= j < i ==> path_elem_matches(#[trigger] pl[j], path.deep_view()[j]),
            decreases path_list@.len() - i,
        {
            let ghost prev = path.deep_view();
            match &path_list[i] {
                Type::String(s, _) => {
                    path.push(vstd::slice::slice_to_vec(s.as_slice()));
                    proof {
                        assert(path.deep_view() =~~= prev.push(s@));
                    }
                },
                _ => {
                    proof {
                        assert(!(pl[i as int] is ByteString));
                        assert(!file_fields_ok(fps)) by {
                            if file_fields_ok(fps) {
                                assert(pl[i as int] is ByteString);
                            }
                        }
                    }
                    return Err(Error::DecodingError(bencode::Error::ExpectedString));
                },
            }
            i = i + 1;
        }
        Ok(File { length, md5sum, path })
    }
}

impl Info {
    /// Reads the `info` dictionary.
    #[verifier::loop_isolation(false)]
    pub fn from_bencode_type(value: &Type) -> (r: Result<Info, Error>)
        ensures
            match r {
                Ok(info) => node_of(*value) matches Node::Dict(ips) && info_ok(ips)
                    && info_matches(ips, info),
                Err(e) => {
                    if !(node_of(*value) is Dict) {
                        e == Error::DecodingError(bencode::Error::ExpectedMap)
                    } else {
                        !info_ok(node_of(*value)->Dict_0) && e == info_error(
                            node_of(*value)->Dict_0,
                        )
                    }
                },
            },
    {
        let pairs = match value {
            Type::Dict(pairs, _) => pairs,
            _ => {
                return Err(Error::DecodingError(bencode::Error::ExpectedMap));
            },
        };
        let ghost ips = node_of(*value)->Dict_0;
        assert(ips == pair_views_of(pairs@));
        let piece_length = match dict_find(pairs, &kb_piece_length()) {
            Some(t) => match t {
                Type::Integer(d, _) => match parse_u32_digits(d) {
                    Some(v) => {
                        if v == 0 {
                            return Err(Error::MissingPieceLength);
                        }
                        v
                    },
                    None => {
                        return Err(Error::MissingPieceLength);
                    },
                },
                _ => {
                    return Err(Error::MissingPieceLength);
                },
            },
            None => {
                return Err(Error::MissingPieceLength);
            },
        };
        let pieces_bytes = match dict_find(pairs, &kb_pieces()) {
            Some(t) => match t {
                Type::String(b, _) => b,
                _ => {
                    return Err(Error::MissingPieces);
                },
            },
            None => {
                return Err(Error::MissingPieces);
            },
        };
        if pieces_bytes.len() % 20 != 0 {
            return Err(Error::MissingPieces);
        }
        let count = pieces_bytes.len() / 20;
        assert(20 * count == pieces_bytes@.len());
        let mut pieces: Vec<Vec<u8>> = Vec::new();
        let mut i: usize = 0;
        while i < count
            invariant
                i <= count,
                count == pieces_bytes@.len() / 20,
                pieces_bytes@.len() % 20 == 0,
                20 * count == pieces_bytes@.len(),
                pieces.deep_view().len() == i,
                forall|j: int|
                    0 <= j < i ==> #[trigger] pieces.deep_view()[j] == pieces_bytes@.subrange(
                        20 * j,
                        20 * j + 20,
                    ),
            decreases count - i,
        {
            assert(20 * i >= 0 && 20 * i + 20 <= 20 * count) by (nonlinear_arith)
                requires
                    0 <= i,
                    i + 1 <= count,
            ;
            let d = vstd::slice::slice_to_vec(
                vstd::slice::slice_subrange(pieces_bytes.as_slice(), 20 * i, 20 * i + 20),
            );
            let ghost prev = pieces.deep_view();
            pieces.push(d);
            proof {
                assert(pieces.deep_view() =~~= prev.push(d@));
            }
            i = i + 1;
        }
        let name = match dict_find(pairs, &kb_name()) {
            Some(t) => match t {
                Type::String(b, _) => vstd::slice::slice_to_vec(b.as_slice()),
                _ => {
                    return Err(Error::MissingName);
                },
            },
            None => {
                return Err(Error::MissingName);
            },
        };
        let md5sum = match dict_find(pairs, &kb_md5sum()) {
            Some(t) => match t {
                Type::String(b, _) => {
                    if b.len() != 16 {
                        return Err(Error::MissingMd5Sum);
                    }
                    Some(vstd::slice::slice_to_vec(b.as_slice()))
                },
                _ => None,
            },
            None => None,
        };
        let private = match dict_find(pairs, &kb_private()) {
            Some(t) => match t {
                Type::Integer(d, _) => {
                    let is_zero = d.len() == 1 && d[0] == 48;
                    proof {
                        if is_zero {
                            assert(d@ =~= seq![48u8]);
                        } else {
                            assert(d@ != seq![48u8]);
                        }
                    }
                    Some(!is_zero)
                },
                _ => None,
            },
            None => None,
        };
        let mode = match dict_find(pairs, &kb_files()) {
            Some(t) => match t {
                Type::List(l, _) => {
                    let ghost lv = crate::bencode::views_of(l@);
                    let mut files: Vec<File> = Vec::new();
                    let mut j: usize = 0;
                    while j < l.len()
                        invariant
                            j <= l@.len(),
                            lv == crate::bencode::views_of(l@),
                            lv.len() == l@.len(),
                            files@.len() == j,
                            forall|k: int| 0 <= k < j ==> file_node_ok(#[trigger] lv[k]),
                            forall|k: int|
                                0 <= k < j ==> file_matches(#[trigger] lv[k], files@[k]),
                        decreases l@.len() - j,
                    {
                        match File::from_bencode_type(&l[j]) {
                            Ok(f) => {
                                files.push(f);
                            },
                            Err(e) => {
                                proof {
                                    lemma_files_error_at(lv, j as int);
                                }
                                return Err(e);
                            },
                        }
                        j = j + 1;
                    }
                    FileMode::MultipleFiles { files }
                },
                _ => {
                    let length = match dict_find(pairs, &kb_length()) {
                        Some(t2) => match t2 {
                            Type::Integer(d, _) => match parse_u64_digits(d) {
                                Some(v) => v,
                                None => {
                                    return Err(Error::MissingLength);
                                },
                            },
                            _ => {
                                return Err(Error::MissingLength);
                            },
                        },
                        None => {
                            return Err(Error::MissingLength);
                        },
                    };
                    FileMode::SingleFile { length, md5sum }
                },
            },
            None => {
                let length = match dict_find(pairs, &kb_length()) {
                    Some(t2) => match t2 {
                        Type::Integer(d, _) => match parse_u64_digits(d) {
                            Some(v) => v,
                            None => {
                                return Err(Error::MissingLength);
                            },
                        },
                        _ => {
                            return Err(Error::MissingLength);
                        },
                    },
                    None => {
                        return Err(Error::MissingLength);
                    },
                };
                FileMode::SingleFile { length, md5sum }
            },
        };
        Ok(Info { piece_length, pieces, private, name, mode })
    }
}

/// One tier of `announce-list`: a list of byte strings.
pub open spec fn alist_row_ok(n: Node) -> bool {
    n matches Node::List(inner) && (forall|j: int|
        0 <= j < inner.len() ==> (#[trigger] inner[j]) is ByteString)
}

pub open spec fn alist_row_error(n: Node) -> Error {
    if !(n is List) {
        Error::DecodingError(bencode::Error::ExpectedList)
    } else {
        Error::DecodingError(bencode::Error::ExpectedString)
    }
}

pub open spec fn alist_ok(l2: Seq<Node>) -> bool {
    forall|i: int| 0 <= i < l2.len() ==> alist_row_ok(#[trigger] l2[i])
}

/// The error of the first malformed `announce-list` tier.
pub open spec fn alist_error(l2: Seq<Node>) -> Error
    decreases l2.len(),
{
    if l2.len() == 0 {
        arbitrary()
    } else if !alist_row_ok(l2[0]) {
        alist_row_error(l2[0])
    } else {
        alist_error(l2.drop_first())
    }
}

proof fn lemma_alist_error_at(l2: Seq<Node>, i: int)
    requires
        0 <= i < l2.len(),
        forall|j: int| 0 <= j < i ==> alist_row_ok(#[trigger] l2[j]),
        !alist_row_ok(l2[i]),
    ensures
        alist_error(l2) == alist_row_error(l2[i]),
    decreases i,
{
    if i > 0 {
        assert(l2.drop_first()[i - 1] == l2[i]);
        assert(forall|j: int| 0 <= j < i - 1 ==> l2.drop_first()[j] == l2[j + 1]);
        lemma_alist_error_at(l2.drop_first(), i - 1);
    }
}

/// How one decoded tier relates to its list node.
pub open spec fn alist_row_matches(n: Node, row: Seq<Seq<u8>>) -> bool {
    n matches Node::List(inner) && row.len() == inner.len() && (forall|j: int|
        0 <= j < inner.len() ==> path_elem_matches(#[trigger] inner[j], row[j]))
}

/// How the decoded `announce-list` relates to its node.
pub open spec fn alist_matches(l2: Seq<Node>, out: Seq<Seq<Seq<u8>>>) -> bool {
    out.len() == l2.len() && (forall|i: int|
        0 <= i < l2.len() ==> alist_row_matches(#[trigger] l2[i], out[i]))
}

/// A well-formed top-level .torrent dictionary.
pub open spec fn meta_ok(ps: Seq<(Node, Node)>) -> bool {
    &&& dict_get(ps, key_info()) matches Some(infon) && infon is Dict && info_ok(infon->Dict_0)
    &&& str_field(ps, key_announce()) is Some
    &&& match list_field(ps, key_announce_list()) {
        Some(l2) => alist_ok(l2),
        None => true,
    }
    &&& match int_field(ps, key_creation_date()) {
        Some(d) => is_int_text(d) && i64::MIN <= int_text_val(d) <= i64::MAX,
        None => true,
    }
}

/// The error a malformed top-level dictionary produces, checked in a fixed
/// order.
pub open spec fn meta_error(ps: Seq<(Node, Node)>) -> Error {
    match dict_get(ps, key_info()) {
        None => Error::MissingInfo,
        Some(infon) => if !(infon is Dict) {
            Error::DecodingError(bencode::Error::ExpectedMap)
        } else if !info_ok(infon->Dict_0) {
            info_error(infon->Dict_0)
        } else if str_field(ps, key_announce()) is None {
            Error::MissingInfo
        } else if list_field(ps, key_announce_list()) matches Some(l2) && !alist_ok(l2) {
            alist_error(list_field(ps, key_announce_list())->0)
        } else {
            Error::MalformedTimestamp
        },
    }
}

/// How a decoded [`MetaInfo`] relates to the top-level dictionary.
pub open spec fn meta_matches(ps: Seq<(Node, Node)>, m: MetaInfo) -> bool {
    &&& dict_get(ps, key_info()) matches Some(infon) && m.info_hash@ == sha1_of(encoded(infon))
        && infon is Dict && info_matches(infon->Dict_0, m.info)
    &&& str_field(ps, key_announce()) matches Some(a) && m.announce@ == a
    &&& match list_field(ps, key_announce_list()) {
        Some(l2) => m.announce_list matches Some(al) && alist_matches(l2, al.deep_view()),
        None => m.announce_list is None,
    }
    &&& match int_field(ps, key_creation_date()) {
        Some(d) => m.creation_date matches Some(cd) && cd.0 == int_text_val(d),
        None => m.creation_date is None,
    }
    &&& match str_field(ps, key_comment()) {
        Some(b) => m.comment matches Some(c) && c@ == b,
        None => m.comment is None,
    }
    &&& match str_field(ps, key_created_by()) {
        Some(b) => m.created_by matches Some(c) && c@ == b,
        None => m.created_by is None,
    }
    &&& match str_field(ps, key_encoding()) {
        Some(b) => m.encoding matches Some(c) && c@ == b,
        None => m.encoding is None,
    }
}

impl MetaInfo {
    pub fn info_hash(&self) -> (r: &[u8; 20])
        ensures
            r == &self.info_hash,
    {
        &self.info_hash
    }

    pub fn info(&self) -> (r: &Info)
        ensures
            r == &self.info,
    {
        &self.info
    }

    pub fn announce(&self) -> (r: &Vec<u8>)
        ensures
            r == &self.announce,
    {
        &self.announce
    }

    pub fn announce_list(&self) -> (r: Option<&Vec<Vec<Vec<u8>>>>)
        ensures
            match r {
                Some(al) => self.announce_list matches Some(v) && v == al,
                None => self.announce_list is None,
            },
    {
        self.announce_list.as_ref()
    }

    pub fn creation_date(&self) -> (r: Option<&CreationDate>)
        ensures
            match r {
                Some(cd) => self.creation_date matches Some(v) && v == cd,
                None => self.creation_date is None,
            },
    {
        self.creation_date.as_ref()
    }

    pub fn comment(&self) -> (r: Option<&Vec<u8>>)
        ensures
            match r {
                Some(c) => self.comment matches Some(v) && v == c,
                None => self.comment is None,
            },
    {
        self.comment.as_ref()
    }

    pub fn created_by(&self) -> (r: Option<&Vec<u8>>)
        ensures
            match r {
                Some(c) => self.created_by matches Some(v) && v == c,
                None => self.created_by is None,
            },
    {
        self.created_by.as_ref()
    }

    pub fn encoding(&self) -> (r: Option<&Vec<u8>>)
        ensures
            match r {
                Some(c) => self.encoding matches Some(v) && v == c,
                None => self.encoding is None,
            },
    {
        self.encoding.as_ref()
    }

    /// Decodes a whole .torrent document.  The info-hash is the SHA-1 of the
    /// raw bytes of the `info` subtree, exactly as they stood in `bytes`.
    #[verifier::loop_isolation(false)]
    pub fn from_bencode(bytes: &[u8]) -> (r: Result<MetaInfo, Error>)
        ensures
            match r {
                Ok(m) => spec_parse(bytes@, 0) matches Ok((n, k)) && n matches Node::Dict(ps)
                    && meta_ok(ps) && meta_matches(ps, m),
                Err(e) => match spec_parse(bytes@, 0) {
                    Err(de) => e == Error::DecodingError(de),
                    Ok((n, k)) => if !(n is Dict) {
                        e == Error::DecodingError(bencode::Error::ExpectedMap)
                    } else {
                        !meta_ok(n->Dict_0) && e == meta_error(n->Dict_0)
                    },
                },
            },
    {
        let t = match parse_value(bytes, 0) {
            Ok((t, _)) => t,
            Err(e) => {
                return Err(Error::DecodingError(e));
            },
        };
        let pairs = match &t {
            Type::Dict(pairs, _) => pairs,
            _ => {
                return Err(Error::DecodingError(bencode::Error::ExpectedMap));
            },
        };
        let ghost ps = node_of(t)->Dict_0;
        assert(ps == pair_views_of(pairs@));
        let info_t = match dict_find(pairs, &kb_info()) {
            Some(x) => x,
            None => {
                return Err(Error::MissingInfo);
            },
        };
        proof {
            let i = choose|i: int| 0 <= i < pairs@.len() && *info_t == (#[trigger] pairs@[i]).1;
            assert(raws_ok(pairs@[i].1));
        }
        let info_raw = match info_t {
            Type::Dict(_, raw) => raw,
            _ => {
                return Err(Error::DecodingError(bencode::Error::ExpectedMap));
            },
        };
        let info_hash = sha1_digest(info_raw.as_slice());
        proof {
            assert(raw_of(*info_t) == info_raw@);
            assert(info_hash@ == sha1_of(encoded(node_of(*info_t))));
        }
        let info = match Info::from_bencode_type(info_t) {
            Ok(i) => i,
            Err(e) => {
                return Err(e);
            },
        };
        let announce = match dict_find(pairs, &kb_announce()) {
            Some(t2) => match t2 {
                Type::String(b, _) => vstd::slice::slice_to_vec(b.as_slice()),
                _ => {
                    return Err(Error::MissingInfo);
                },
            },
            None => {
                return Err(Error::MissingInfo);
            },
        };
        let announce_list = match dict_find(pairs, &kb_announce_list()) {
            Some(t2) => match t2 {
                Type::List(l2, _) => {
                    let ghost lv = crate::bencode::views_of(l2@);
                    let mut out: Vec<Vec<Vec<u8>>> = Vec::new();
                    let mut i: usize = 0;
                    while i < l2.len()
                        invariant
                            i <= l2@.len(),
                            lv == crate::bencode::views_of(l2@),
                            lv.len() == l2@.len(),
                            out.deep_view().len() == i,
                            forall|k: int| 0 <= k < i ==> alist_row_ok(#[trigger] lv[k]),
                            forall|k: int|
                                0 <= k < i ==> alist_row_matches(
                                    #[trigger] lv[k],
                                    out.deep_view()[k],
                                ),
                        decreases l2@.len() - i,
                    {
                        let ghost prev = out.deep_view();
                        match &l2[i] {
                            Type::List(inner, _) => {
                                let ghost iv = crate::bencode::views_of(inner@);
                                let mut row: Vec<Vec<u8>> = Vec::new();
                                let mut j: usize = 0;
                                while j < inner.len()
                                    invariant
                                        j <= inner@.len(),
                                        iv == crate::bencode::views_of(inner@),
                                        iv.len() == inner@.len(),
                                        row.deep_view().len() == j,
                                        forall|k: int|
                                            0 <= k < j ==> path_elem_matches(
                                                #[trigger] iv[k],
                                                row.deep_view()[k],
                                            ),
                                    decreases inner@.len() - j,
                                {
                                    let ghost rprev = row.deep_view();
                                    match &inner[j] {
                                        Type::String(s, _) => {
                                            row.push(vstd::slice::slice_to_vec(s.as_slice()));
                                            proof {
                                                assert(row.deep_view() =~~= rprev.push(s@));
                                            }
                                        },
                                        _ => {
                                            proof {
                                                assert(!(iv[j as int] is ByteString));
                                                assert(!alist_row_ok(lv[i as int])) by {
                                                    if alist_row_ok(lv[i as int]) {
                                                        assert(iv[j as int] is ByteString);
                                                    }
                                                }
                                                lemma_alist_error_at(lv, i as int);
                                            }
                                            return Err(
                                                Error::DecodingError(bencode::Error::ExpectedString),
                                            );
                                        },
                                    }
                                    j = j + 1;
                                }
                                out.push(row);
                                proof {
                                    assert(out.deep_view() =~~= prev.push(
                                        out@[out@.len() - 1].deep_view(),
                                    ));
                                }
                            },
                            _ => {
                                proof {
                                    assert(!alist_row_ok(lv[i as int]));
                                    lemma_alist_error_at(lv, i as int);
                                }
                                return Err(Error::DecodingError(bencode::Error::ExpectedList));
                            },
                        }
                        i = i + 1;
                    }
                    Some(out)
                },
                _ => None,
            },
            None => None,
        };
        let creation_date = match dict_find(pairs, &kb_creation_date()) {
            Some(t2) => match t2 {
                Type::Integer(d, _) => match parse_i64_text(d) {
                    Some(v) => Some(CreationDate(v)),
                    None => {
                        return Err(Error::MalformedTimestamp);
                    },
                },
                _ => None,
            },
            None => None,
        };
        let comment = match dict_find(pairs, &kb_comment()) {
            Some(t2) => match t2 {
                Type::String(b, _) => Some(vstd::slice::slice_to_vec(b.as_slice())),
                _ => None,
            },
            None => None,
        };
        let created_by = match dict_find(pairs, &kb_created_by()) {
            Some(t2) => match t2 {
                Type::String(b, _) => Some(vstd::slice::slice_to_vec(b.as_slice())),
                _ => None,
            },
            None => None,
        };
        let encoding = match dict_find(pairs, &kb_encoding()) {
            Some(t2) => match t2 {
                Type::String(b, _) => Some(vstd::slice::slice_to_vec(b.as_slice())),
                _ => None,
            },
            None => None,
        };
        Ok(
            MetaInfo {
                info_hash,
                info,
                announce,
                announce_list,
                creation_date,
                comment,
                created_by,
                encoding,
            },
        )
    }
}

/// Info-hash stability: hashing the preserved raw slice of a decoded node
/// gives the same digest as hashing the canonical re-encoding of the node's
/// value, because the two byte sequences are equal.
pub proof fn lemma_info_hash_stability(t: Type)
    requires
        raws_ok(t),
    ensures
        sha1_of(raw_of(t)) == sha1_of(encoded(node_of(t))),
{
}

} // verus!
