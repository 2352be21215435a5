//! HTTP tracker client: building the announce request and decoding the
//! bencoded response into a typed structure with the peer list.

use crate::bencode;
use crate::bencode::{
    all_digits, dict_find, dict_get, digits_val, node_of, pair_views_of, parse_u32_digits,
    parse_value, spec_parse, views_of, Node, Type,
};
use crate::metainfo::{int_field, str_field, uint_field_ok, uint_field_val};
use vstd::prelude::*;

verus! {

broadcast use crate::bencode::lemma_digits_val_nonneg;

/// Everything that can go wrong while reading a tracker response.  I/O and
/// URL errors belong to the connection's owner.
#[derive(Debug, Clone, Copy, PartialEq, Eq, Structural)]
pub enum Error {
    DecodingError(bencode::Error),
    MissingInterval,
    MissingComplete,
    MissingIncomplete,
    MissingPeers,
    MissingPeerId,
    MissingPeerIp,
    MissingPeerPort,
}

/// An IP address, carried as plain values: four octets, or eight 16-bit
/// groups.
#[derive(Debug, Clone, Copy, PartialEq, Eq, Structural)]
pub enum IpType {
    Ipv4(u8, u8, u8, u8),
    Ipv6(u16, u16, u16, u16, u16, u16, u16, u16),
}

/// The optional `event` parameter of an announce.
#[derive(Debug, Clone, Copy, PartialEq, Eq, Structural)]
pub enum Event {
    Started,
    Stopped,
    Completed,
}

/// The bytes of `'GET '`.
pub open spec fn lit_get() -> Seq<u8> {
    seq![71u8, 69, 84, 32]
}

fn lb_get() -> (r: Vec<u8>)
    ensures
        r@ == lit_get(),
{
    let v: Vec<u8> = vec![71u8, 69, 84, 32];
    assert(v@ =~= lit_get());
    v
}

/// The bytes of `'?info_hash='`.
pub open spec fn lit_q_info_hash() -> Seq<u8> {
    seq![63u8, 105, 110, 102, 111, 95, 104, 97, 115, 104, 61]
}

fn lb_q_info_hash() -> (r: Vec<u8>)
    ensures
        r@ == lit_q_info_hash(),
{
    let v: Vec<u8> = vec![63u8, 105, 110, 102, 111, 95, 104, 97, 115, 104, 61];
    assert(v@ =~= lit_q_info_hash());
    v
}

/// The bytes of `'&peer_id='`.
pub open spec fn lit_amp_peer_id() -> Seq<u8> {
    seq![38u8, 112, 101, 101, 114, 95, 105, 100, 61]
}

fn lb_amp_peer_id() -> (r: Vec<u8>)
    ensures
        r@ == lit_amp_peer_id(),
{
    let v: Vec<u8> = vec![38u8, 112, 101, 101, 114, 95, 105, 100, 61];
    assert(v@ =~= lit_amp_peer_id());
    v
}

/// The bytes of `'&port='`.
pub open spec fn lit_amp_port() -> Seq<u8> {
    seq![38u8, 112, 111, 114, 116, 61]
}

fn lb_amp_port() -> (r: Vec<u8>)
    ensures
        r@ == lit_amp_port(),
{
    let v: Vec<u8> = vec![38u8, 112, 111, 114, 116, 61];
    assert(v@ =~= lit_amp_port());
    v
}

/// The bytes of `'&uploaded='`.
pub open spec fn lit_amp_uploaded() -> Seq<u8> {
    seq![38u8, 117, 112, 108, 111, 97, 100, 101, 100, 61]
}

fn lb_amp_uploaded() -> (r: Vec<u8>)
    ensures
        r@ == lit_amp_uploaded(),
{
    let v: Vec<u8> = vec![38u8, 117, 112, 108, 111, 97, 100, 101, 100, 61];
    assert(v@ =~= lit_amp_uploaded());
    v
}

/// The bytes of `'&downloaded='`.
pub open spec fn lit_amp_downloaded() -> Seq<u8> {
    seq![38u8, 100, 111, 119, 110, 108, 111, 97, 100, 101, 100, 61]
}

fn lb_amp_downloaded() -> (r: Vec<u8>)
    ensures
        r@ == lit_amp_downloaded(),
{
    let v: Vec<u8> = vec![38u8, 100, 111, 119, 110, 108, 111, 97, 100, 101, 100, 61];
    assert(v@ =~= lit_amp_downloaded());
    v
}

/// The bytes of `'&left='`.
pub open spec fn lit_amp_left() -> Seq<u8> {
    seq![38u8, 108, 101, 102, 116, 61]
}

fn lb_amp_left() -> (r: Vec<u8>)
    ensures
        r@ == lit_amp_left(),
{
    let v: Vec<u8> = vec![38u8, 108, 101, 102, 116, 61];
    assert(v@ =~= lit_amp_left());
    v
}

/// The bytes of `'&compact='`.
pub open spec fn lit_amp_compact() -> Seq<u8> {
    seq![38u8, 99, 111, 109, 112, 97, 99, 116, 61]
}

fn lb_amp_compact() -> (r: Vec<u8>)
    ensures
        r@ == lit_amp_compact(),
{
    let v: Vec<u8> = vec![38u8, 99, 111, 109, 112, 97, 99, 116, 61];
    assert(v@ =~= lit_amp_compact());
    v
}

/// The bytes of `'&no_peer_id=1'`.
pub open spec fn lit_amp_no_peer_id() -> Seq<u8> {
    seq![38u8, 110, 111, 95, 112, 101, 101, 114, 95, 105, 100, 61, 49]
}

fn lb_amp_no_peer_id() -> (r: Vec<u8>)
    ensures
        r@ == lit_amp_no_peer_id(),
{
    let v: Vec<u8> = vec![38u8, 110, 111, 95, 112, 101, 101, 114, 95, 105, 100, 61, 49];
    assert(v@ =~= lit_amp_no_peer_id());
    v
}

/// The bytes of `'&event='`.
pub open spec fn lit_amp_event() -> Seq<u8> {
    seq![38u8, 101, 118, 101, 110, 116, 61]
}

fn lb_amp_event() -> (r: Vec<u8>)
    ensures
        r@ == lit_amp_event(),
{
    let v: Vec<u8> = vec![38u8, 101, 118, 101, 110, 116, 61];
    assert(v@ =~= lit_amp_event());
    v
}

/// The bytes of `'&ip='`.
pub open spec fn lit_amp_ip() -> Seq<u8> {
    seq![38u8, 105, 112, 61]
}

fn lb_amp_ip() -> (r: Vec<u8>)
    ensures
        r@ == lit_amp_ip(),
{
    let v: Vec<u8> = vec![38u8, 105, 112, 61];
    assert(v@ =~= lit_amp_ip());
    v
}

/// The bytes of `'&numwant='`.
pub open spec fn lit_amp_numwant() -> Seq<u8> {
    seq![38u8, 110, 117, 109, 119, 97, 110, 116, 61]
}

fn lb_amp_numwant() -> (r: Vec<u8>)
    ensures
        r@ == lit_amp_numwant(),
{
    let v: Vec<u8> = vec![38u8, 110, 117, 109, 119, 97, 110, 116, 61];
    assert(v@ =~= lit_amp_numwant());
    v
}

/// The bytes of `'&key='`.
pub open spec fn lit_amp_key() -> Seq<u8> {
    seq![38u8, 107, 101, 121, 61]
}

fn lb_amp_key() -> (r: Vec<u8>)
    ensures
        r@ == lit_amp_key(),
{
    let v: Vec<u8> = vec![38u8, 107, 101, 121, 61];
    assert(v@ =~= lit_amp_key());
    v
}

/// The bytes of `'&trackerid='`.
pub open spec fn lit_amp_trackerid() -> Seq<u8> {
    seq![38u8, 116, 114, 97, 99, 107, 101, 114, 105, 100, 61]
}

fn lb_amp_trackerid() -> (r: Vec<u8>)
    ensures
        r@ == lit_amp_trackerid(),
{
    let v: Vec<u8> = vec![38u8, 116, 114, 97, 99, 107, 101, 114, 105, 100, 61];
    assert(v@ =~= lit_amp_trackerid());
    v
}

/// The bytes of `' HTTP/1.1\r\nHost: '`.
pub open spec fn lit_http_tail() -> Seq<u8> {
    seq![32u8, 72, 84, 84, 80, 47, 49, 46, 49, 13, 10, 72, 111, 115, 116, 58, 32]
}

fn lb_http_tail() -> (r: Vec<u8>)
    ensures
        r@ == lit_http_tail(),
{
    let v: Vec<u8> = vec![32u8, 72, 84, 84, 80, 47, 49, 46, 49, 13, 10, 72, 111, 115, 116, 58, 32];
    assert(v@ =~= lit_http_tail());
    v
}

/// The bytes of `'\r\nAccept: */*\r\n\r\n'`.
pub open spec fn lit_accept_tail() -> Seq<u8> {
    seq![13u8, 10, 65, 99, 99, 101, 112, 116, 58, 32, 42, 47, 42, 13, 10, 13, 10]
}

fn lb_accept_tail() -> (r: Vec<u8>)
    ensures
        r@ == lit_accept_tail(),
{
    let v: Vec<u8> = vec![13u8, 10, 65, 99, 99, 101, 112, 116, 58, 32, 42, 47, 42, 13, 10, 13, 10];
    assert(v@ =~= lit_accept_tail());
    v
}

/// The bytes of `'started'`.
pub open spec fn lit_started() -> Seq<u8> {
    seq![115u8, 116, 97, 114, 116, 101, 100]
}

fn lb_started() -> (r: Vec<u8>)
    ensures
        r@ == lit_started(),
{
    let v: Vec<u8> = vec![115u8, 116, 97, 114, 116, 101, 100];
    assert(v@ =~= lit_started());
    v
}

/// The bytes of `'stopped'`.
pub open spec fn lit_stopped() -> Seq<u8> {
    seq![115u8, 116, 111, 112, 112, 101, 100]
}

fn lb_stopped() -> (r: Vec<u8>)
    ensures
        r@ == lit_stopped(),
{
    let v: Vec<u8> = vec![115u8, 116, 111, 112, 112, 101, 100];
    assert(v@ =~= lit_stopped());
    v
}

/// The bytes of `'completed'`.
pub open spec fn lit_completed() -> Seq<u8> {
    seq![99u8, 111, 109, 112, 108, 101, 116, 101, 100]
}

fn lb_completed() -> (r: Vec<u8>)
    ensures
        r@ == lit_completed(),
{
    let v: Vec<u8> = vec![99u8, 111, 109, 112, 108, 101, 116, 101, 100];
    assert(v@ =~= lit_completed());
    v
}


/// A byte that RFC 3986 calls unreserved: letters, digits, `-`, `.`, `_`,
/// `~`.
pub open spec fn is_unreserved(b: u8) -> bool {
    (48 <= b <= 57) || (65 <= b <= 90) || (97 <= b <= 122) || b == 45 || b == 46 || b == 95
        || b == 126
}

/// The upper-case hex digit of a value below 16.
pub open spec fn hex_digit(n: int) -> u8 {
    if n < 10 {
        (48 + n) as u8
    } else {
        (55 + n) as u8
    }
}

/// The percent-encoding of one byte.
pub open spec fn pct1(b: u8) -> Seq<u8> {
    if is_unreserved(b) {
        seq![b]
    } else {
        seq![37u8, hex_digit(b as int / 16), hex_digit(b as int % 16)]
    }
}

/// The percent-encoding of a byte string, byte by byte.
pub open spec fn pct_encoded(s: Seq<u8>) -> Seq<u8>
    decreases s.len(),
{
    if s.len() == 0 {
        Seq::empty()
    } else {
        pct1(s[0]) + pct_encoded(s.drop_first())
    }
}

proof fn lemma_pct_push(s: Seq<u8>, b: u8)
    ensures
        pct_encoded(s.push(b)) == pct_encoded(s) + pct1(b),
    decreases s.len(),
{
    if s.len() == 0 {
        assert(s.push(b)[0] == b);
        assert(s.push(b).drop_first() =~= Seq::<u8>::empty());
        assert(s =~= Seq::<u8>::empty());
        assert(pct_encoded(s.push(b)) == pct1(b) + pct_encoded(s));
        assert(pct1(b) + pct_encoded(s) =~= pct_encoded(s) + pct1(b));
    } else {
        assert(s.push(b)[0] == s[0]);
        assert(s.push(b).drop_first() =~= s.drop_first().push(b));
        lemma_pct_push(s.drop_first(), b);
        assert(pct_encoded(s.push(b)) == pct1(s[0]) + (pct_encoded(s.drop_first()) + pct1(b)));
        assert(pct1(s[0]) + (pct_encoded(s.drop_first()) + pct1(b)) =~= (pct1(s[0]) + pct_encoded(
            s.drop_first(),
        )) + pct1(b));
        assert(pct_encoded(s) == pct1(s[0]) + pct_encoded(s.drop_first()));
    }
}

/// Percent-encodes a byte string per RFC 3986: unreserved bytes stand as
/// themselves, every other byte becomes `%` and two upper-case hex digits.
pub fn percent_encode(data: &[u8]) -> (r: Vec<u8>)
    ensures
        r@ == pct_encoded(data@),
{
    let mut out: Vec<u8> = Vec::new();
    proof {
        assert(data@.take(0) =~= Seq::<u8>::empty());
        assert(out@ =~= pct_encoded(data@.take(0)));
    }
    let mut i: usize = 0;
    while i < data.len()
        invariant
            i <= data@.len(),
            out@ == pct_encoded(data@.take(i as int)),
        decreases data@.len() - i,
    {
        let b = data[i];
        let unreserved = (48 <= b && b <= 57) || (65 <= b && b <= 90) || (97 <= b && b <= 122)
            || b == 45 || b == 46 || b == 95 || b == 126;
        let ghost pre = data@.take(i as int);
        if unreserved {
            out.push(b);
        } else {
            out.push(37);
            let hi = b / 16;
            let lo = b % 16;
            out.push(if hi < 10 { 48 + hi } else { 55 + hi });
            out.push(if lo < 10 { 48 + lo } else { 55 + lo });
        }
        proof {
            lemma_pct_push(pre, b);
            assert(data@.take(i as int + 1) =~= pre.push(b));
            assert(out@ =~= pct_encoded(data@.take(i as int + 1)));
        }
        i = i + 1;
    }
    proof {
        assert(data@.take(data@.len() as int) =~= data@);
    }
    out
}

/// Appends the decimal digits of `n`.
fn push_decimal(out: &mut Vec<u8>, n: u128)
    ensures
        final(out)@ == old(out)@ + crate::bencode::dec_digits(n as nat),
    decreases n,
{
    if n < 10 {
        out.push(48 + n as u8);
        assert(final(out)@ =~= old(out)@ + crate::bencode::dec_digits(n as nat));
    } else {
        push_decimal(out, n / 10);
        out.push(48 + (n % 10) as u8);
        assert(final(out)@ =~= old(out)@ + crate::bencode::dec_digits(n as nat));
    }
}

fn push_all(out: &mut Vec<u8>, v: &Vec<u8>)
    ensures
        final(out)@ == old(out)@ + v@,
{
    out.extend_from_slice(v.as_slice());
}

/// The query text of an event.
pub open spec fn event_text(e: Event) -> Seq<u8> {
    match e {
        Event::Started => lit_started(),
        Event::Stopped => lit_stopped(),
        Event::Completed => lit_completed(),
    }
}

/// An announce request: every value the query string carries.
pub struct TrackerRequest {
    pub info_hash: [u8; 20],
    pub peer_id: [u8; 20],
    pub port: u16,
    pub uploaded: u128,
    pub downloaded: u128,
    pub left: u128,
    pub compact: bool,
    pub no_peer_id: bool,
    pub event: Option<Event>,
    pub ip: Option<Vec<u8>>,
    pub numwant: Option<u16>,
    pub key: Option<u32>,
    pub trackerid: Option<Vec<u8>>,
}

/// The mandatory part of the announce query: the verb, path, hashes,
/// counters, and the compact flag.
pub open spec fn mandatory_bytes(req: TrackerRequest, path: Seq<u8>) -> Seq<u8> {
    lit_get() + path + lit_q_info_hash() + pct_encoded(req.info_hash@) + lit_amp_peer_id()
        + pct_encoded(req.peer_id@) + lit_amp_port() + crate::bencode::dec_digits(req.port as nat)
        + lit_amp_uploaded() + crate::bencode::dec_digits(req.uploaded as nat)
        + lit_amp_downloaded() + crate::bencode::dec_digits(req.downloaded as nat) + lit_amp_left()
        + crate::bencode::dec_digits(req.left as nat) + lit_amp_compact() + (if req.compact {
        seq![49u8]
    } else {
        seq![48u8]
    })
}

/// The optional announce parameters, each present exactly when set.
pub open spec fn optional_bytes(req: TrackerRequest) -> Seq<u8> {
    (if req.no_peer_id {
        lit_amp_no_peer_id()
    } else {
        Seq::<u8>::empty()
    }) + (match req.event {
        Some(e) => lit_amp_event() + event_text(e),
        None => Seq::<u8>::empty(),
    }) + (match &req.ip {
        Some(ip) => lit_amp_ip() + ip@,
        None => Seq::<u8>::empty(),
    }) + (match req.numwant {
        Some(n) => lit_amp_numwant() + crate::bencode::dec_digits(n as nat),
        None => Seq::<u8>::empty(),
    }) + (match req.key {
        Some(k) => lit_amp_key() + crate::bencode::dec_digits(k as nat),
        None => Seq::<u8>::empty(),
    }) + (match &req.trackerid {
        Some(t) => lit_amp_trackerid() + t@,
        None => Seq::<u8>::empty(),
    })
}

/// The HTTP/1.1 request line tail and headers.
pub open spec fn tail_bytes(host: Seq<u8>) -> Seq<u8> {
    lit_http_tail() + host + lit_accept_tail()
}

/// The exact bytes of the HTTP/1.1 GET announce for a request, a URL path,
/// and a host header value.  The two 20-byte fields are percent-encoded byte
/// by byte; numbers are decimal; optional parameters appear only when set.
pub open spec fn request_bytes(req: TrackerRequest, path: Seq<u8>, host: Seq<u8>) -> Seq<u8> {
    mandatory_bytes(req, path) + optional_bytes(req) + tail_bytes(host)
}

impl TrackerRequest {
    /// A fresh request with no optional parameters.
    pub fn new(
        info_hash: [u8; 20],
        peer_id: [u8; 20],
        port: u16,
        uploaded: u128,
        downloaded: u128,
        left: u128,
        compact: bool,
        no_peer_id: bool,
    ) -> (r: TrackerRequest)
        ensures
            r.info_hash@ == info_hash@,
            r.peer_id@ == peer_id@,
            r.port == port,
            r.uploaded == uploaded,
            r.downloaded == downloaded,
            r.left == left,
            r.compact == compact,
            r.no_peer_id == no_peer_id,
            r.event is None,
            r.ip is None,
            r.numwant is None,
            r.key is None,
            r.trackerid is None,
    {
        TrackerRequest {
            info_hash,
            peer_id,
            port,
            uploaded,
            downloaded,
            left,
            compact,
            no_peer_id,
            event: None,
            ip: None,
            numwant: None,
            key: None,
            trackerid: None,
        }
    }

    fn mandatory_part(&self, path: &Vec<u8>) -> (r: Vec<u8>)
        ensures
            r@ == mandatory_bytes(*self, path@),
    {
        let mut out: Vec<u8> = lb_get();
        push_all(&mut out, path);
        push_all(&mut out, &lb_q_info_hash());
        let ih = percent_encode(self.info_hash.as_slice());
        push_all(&mut out, &ih);
        push_all(&mut out, &lb_amp_peer_id());
        let pid = percent_encode(self.peer_id.as_slice());
        push_all(&mut out, &pid);
        push_all(&mut out, &lb_amp_port());
        push_decimal(&mut out, self.port as u128);
        push_all(&mut out, &lb_amp_uploaded());
        push_decimal(&mut out, self.uploaded);
        push_all(&mut out, &lb_amp_downloaded());
        push_decimal(&mut out, self.downloaded);
        push_all(&mut out, &lb_amp_left());
        push_decimal(&mut out, self.left);
        push_all(&mut out, &lb_amp_compact());
        let ghost pre = out@;
        if self.compact {
            out.push(49);
            assert(out@ =~= pre + seq![49u8]);
        } else {
            out.push(48);
            assert(out@ =~= pre + seq![48u8]);
        }
        out
    }

    fn opt_no_peer_id(&self) -> (r: Vec<u8>)
        ensures
            r@ == (if self.no_peer_id {
                lit_amp_no_peer_id()
            } else {
                Seq::<u8>::empty()
            }),
    {
        if self.no_peer_id {
            lb_amp_no_peer_id()
        } else {
            let out: Vec<u8> = Vec::new();
            out
        }
    }

    fn opt_event(&self) -> (r: Vec<u8>)
        ensures
            r@ == (match self.event {
                Some(e) => lit_amp_event() + event_text(e),
                None => Seq::<u8>::empty(),
            }),
    {
        match &self.event {
            Some(e) => {
                let mut out = lb_amp_event();
                match e {
                    Event::Started => push_all(&mut out, &lb_started()),
                    Event::Stopped => push_all(&mut out, &lb_stopped()),
                    Event::Completed => push_all(&mut out, &lb_completed()),
                }
                out
            },
            None => {
                let out: Vec<u8> = Vec::new();
                out
            },
        }
    }

    fn opt_ip(&self) -> (r: Vec<u8>)
        ensures
            r@ == (match &self.ip {
                Some(ip) => lit_amp_ip() + ip@,
                None => Seq::<u8>::empty(),
            }),
    {
        match &self.ip {
            Some(ip) => {
                let mut out = lb_amp_ip();
                push_all(&mut out, ip);
                out
            },
            None => {
                let out: Vec<u8> = Vec::new();
                out
            },
        }
    }

    fn opt_numwant(&self) -> (r: Vec<u8>)
        ensures
            r@ == (match self.numwant {
                Some(n) => lit_amp_numwant() + crate::bencode::dec_digits(n as nat),
                None => Seq::<u8>::empty(),
            }),
    {
        match &self.numwant {
            Some(n) => {
                let mut out = lb_amp_numwant();
                push_decimal(&mut out, *n as u128);
                out
            },
            None => {
                let out: Vec<u8> = Vec::new();
                out
            },
        }
    }

    fn opt_key(&self) -> (r: Vec<u8>)
        ensures
            r@ == (match self.key {
                Some(k) => lit_amp_key() + crate::bencode::dec_digits(k as nat),
                None => Seq::<u8>::empty(),
            }),
    {
        match &self.key {
            Some(k) => {
                let mut out = lb_amp_key();
                push_decimal(&mut out, *k as u128);
                out
            },
            None => {
                let out: Vec<u8> = Vec::new();
                out
            },
        }
    }

    fn opt_trackerid(&self) -> (r: Vec<u8>)
        ensures
            r@ == (match &self.trackerid {
                Some(t) => lit_amp_trackerid() + t@,
                None => Seq::<u8>::empty(),
            }),
    {
        match &self.trackerid {
            Some(t) => {
                let mut out = lb_amp_trackerid();
                push_all(&mut out, t);
                out
            },
            None => {
                let out: Vec<u8> = Vec::new();
                out
            },
        }
    }

    fn optional_part(&self) -> (r: Vec<u8>)
        ensures
            r@ == optional_bytes(*self),
    {
        let mut out = self.opt_no_peer_id();
        push_all(&mut out, &self.opt_event());
        push_all(&mut out, &self.opt_ip());
        push_all(&mut out, &self.opt_numwant());
        push_all(&mut out, &self.opt_key());
        push_all(&mut out, &self.opt_trackerid());
        out
    }

    /// Builds the announce request, byte for byte.
    pub fn create_request(&self, path: &Vec<u8>, host: &Vec<u8>) -> (r: Vec<u8>)
        ensures
            r@ == request_bytes(*self, path@, host@),
    {
        let mut out = self.mandatory_part(path);
        let opt = self.optional_part();
        push_all(&mut out, &opt);
        let tail = {
            let mut t: Vec<u8> = lb_http_tail();
            push_all(&mut t, host);
            push_all(&mut t, &lb_accept_tail());
            t
        };
        push_all(&mut out, &tail);
        out
    }
}

/// Relies on `rand::random`: a fresh 20-byte peer id drawn uniformly at
/// random; nothing is promised of its value.
#[verifier::external_body]
pub fn random_peer_id() -> [u8; 20] {
    rand::random()
}

pub open spec fn key_warning_message() -> Seq<u8> {
    seq![119u8, 97, 114, 110, 105, 110, 103, 32, 109, 101, 115, 115, 97, 103, 101]
}

fn kb_warning_message() -> (r: Vec<u8>)
    ensures
        r@ == key_warning_message(),
{
    let v: Vec<u8> = vec![119u8, 97, 114, 110, 105, 110, 103, 32, 109, 101, 115, 115, 97, 103, 101];
    assert(v@ =~= key_warning_message());
    v
}

pub open spec fn key_interval() -> Seq<u8> {
    seq![105u8, 110, 116, 101, 114, 118, 97, 108]
}

fn kb_interval() -> (r: Vec<u8>)
    ensures
        r@ == key_interval(),
{
    let v: Vec<u8> = vec![105u8, 110, 116, 101, 114, 118, 97, 108];
    assert(v@ =~= key_interval());
    v
}

pub open spec fn key_min_interval() -> Seq<u8> {
    seq![109u8, 105, 110, 32, 105, 110, 116, 101, 114, 118, 97, 108]
}

fn kb_min_interval() -> (r: Vec<u8>)
    ensures
        r@ == key_min_interval(),
{
    let v: Vec<u8> = vec![109u8, 105, 110, 32, 105, 110, 116, 101, 114, 118, 97, 108];
    assert(v@ =~= key_min_interval());
    v
}

pub open spec fn key_tracker_id() -> Seq<u8> {
    seq![116u8, 114, 97, 99, 107, 101, 114, 32, 105, 100]
}

fn kb_tracker_id() -> (r: Vec<u8>)
    ensures
        r@ == key_tracker_id(),
{
    let v: Vec<u8> = vec![116u8, 114, 97, 99, 107, 101, 114, 32, 105, 100];
    assert(v@ =~= key_tracker_id());
    v
}

pub open spec fn key_complete() -> Seq<u8> {
    seq![99u8, 111, 109, 112, 108, 101, 116, 101]
}

fn kb_complete() -> (r: Vec<u8>)
    ensures
        r@ == key_complete(),
{
    let v: Vec<u8> = vec![99u8, 111, 109, 112, 108, 101, 116, 101];
    assert(v@ =~= key_complete());
    v
}

pub open spec fn key_incomplete() -> Seq<u8> {
    seq![105u8, 110, 99, 111, 109, 112, 108, 101, 116, 101]
}

fn kb_incomplete() -> (r: Vec<u8>)
    ensures
        r@ == key_incomplete(),
{
    let v: Vec<u8> = vec![105u8, 110, 99, 111, 109, 112, 108, 101, 116, 101];
    assert(v@ =~= key_incomplete());
    v
}

pub open spec fn key_peers() -> Seq<u8> {
    seq![112u8, 101, 101, 114, 115]
}

fn kb_peers() -> (r: Vec<u8>)
    ensures
        r@ == key_peers(),
{
    let v: Vec<u8> = vec![112u8, 101, 101, 114, 115];
    assert(v@ =~= key_peers());
    v
}

pub open spec fn key_peer_id() -> Seq<u8> {
    seq![112u8, 101, 101, 114, 32, 105, 100]
}

fn kb_peer_id() -> (r: Vec<u8>)
    ensures
        r@ == key_peer_id(),
{
    let v: Vec<u8> = vec![112u8, 101, 101, 114, 32, 105, 100];
    assert(v@ =~= key_peer_id());
    v
}

pub open spec fn key_ip() -> Seq<u8> {
    seq![105u8, 112]
}

fn kb_ip() -> (r: Vec<u8>)
    ensures
        r@ == key_ip(),
{
    let v: Vec<u8> = vec![105u8, 112];
    assert(v@ =~= key_ip());
    v
}

pub open spec fn key_port() -> Seq<u8> {
    seq![112u8, 111, 114, 116]
}

fn kb_port() -> (r: Vec<u8>)
    ensures
        r@ == key_port(),
{
    let v: Vec<u8> = vec![112u8, 111, 114, 116];
    assert(v@ =~= key_port());
    v
}

/// One address of the compact peers format: four IPv4 octets and a
/// big-endian port.
#[derive(Debug, Clone, Copy, PartialEq, Eq, Structural)]
pub struct PeerAddr {
    pub ip0: u8,
    pub ip1: u8,
    pub ip2: u8,
    pub ip3: u8,
    pub port: u16,
}

/// One entry of the non-compact peers list.
#[derive(Debug, PartialEq, Eq)]
pub struct DictPeer {
    pub peer_id: Vec<u8>,
    pub ip: Vec<u8>,
    pub port: u16,
}

/// The peer list of a tracker response, in either of its two shapes.
#[derive(Debug, PartialEq, Eq)]
pub enum Peers {
    Binary(Vec<PeerAddr>),
    Dictionary(Vec<DictPeer>),
}

/// The addresses a compact peers byte string carries: each six bytes are
/// four IPv4 octets followed by a two-byte big-endian port.
pub open spec fn compact_peers(b: Seq<u8>) -> Seq<PeerAddr> {
    Seq::new(
        (b.len() / 6) as nat,
        |i: int| PeerAddr {
            ip0: b[6 * i],
            ip1: b[6 * i + 1],
            ip2: b[6 * i + 2],
            ip3: b[6 * i + 3],
            port: (b[6 * i + 4] * 256 + b[6 * i + 5]) as u16,
        },
    )
}

/// An optional decimal field read as a `u32`; anything else reads as
/// absent.
pub open spec fn opt_u32_field(ps: Seq<(Node, Node)>, key: Seq<u8>) -> Option<u32> {
    match int_field(ps, key) {
        Some(d) => if all_digits(d) && d.len() >= 1 && digits_val(d) <= u32::MAX {
            Some(digits_val(d) as u32)
        } else {
            None
        },
        None => None,
    }
}

/// A well-formed entry of the non-compact peers list.
pub open spec fn dict_peer_ok(n: Node) -> bool {
    &&& n matches Node::Dict(ps)
    &&& str_field(n->Dict_0, key_peer_id()) is Some
    &&& str_field(n->Dict_0, key_ip()) is Some
    &&& uint_field_ok(n->Dict_0, key_port(), 0, u16::MAX as int)
}

pub open spec fn dict_peer_error(n: Node) -> Error {
    if !(n is Dict) {
        Error::DecodingError(bencode::Error::ExpectedMap)
    } else if str_field(n->Dict_0, key_peer_id()) is None {
        Error::MissingPeerId
    } else if str_field(n->Dict_0, key_ip()) is None {
        Error::MissingPeerIp
    } else {
        Error::MissingPeerPort
    }
}

pub open spec fn dict_peer_matches(n: Node, p: DictPeer) -> bool {
    &&& str_field(n->Dict_0, key_peer_id()) matches Some(b) && p.peer_id@ == b
    &&& str_field(n->Dict_0, key_ip()) matches Some(b) && p.ip@ == b
    &&& p.port == uint_field_val(n->Dict_0, key_port())
}

pub open spec fn dict_peers_ok(ns: Seq<Node>) -> bool {
    forall|i: int| 0 <= i < ns.len() ==> dict_peer_ok(#[trigger] ns[i])
}

/// The error of the first malformed peers-list entry.
pub open spec fn dict_peers_error(ns: Seq<Node>) -> Error
    decreases ns.len(),
{
    if ns.len() == 0 {
        arbitrary()
    } else if !dict_peer_ok(ns[0]) {
        dict_peer_error(ns[0])
    } else {
        dict_peers_error(ns.drop_first())
    }
}

proof fn lemma_dict_peers_error_at(ns: Seq<Node>, i: int)
    requires
        0 <= i < ns.len(),
        forall|j: int| 0 <= j < i ==> dict_peer_ok(#[trigger] ns[j]),
        !dict_peer_ok(ns[i]),
    ensures
        dict_peers_error(ns) == dict_peer_error(ns[i]),
    decreases i,
{
    if i > 0 {
        assert(ns.drop_first()[i - 1] == ns[i]);
        assert(forall|j: int| 0 <= j < i - 1 ==> ns.drop_first()[j] == ns[j + 1]);
        lemma_dict_peers_error_at(ns.drop_first(), i - 1);
    }
}

/// A well-formed `peers` value: a compact byte string whose length is a
/// multiple of six, or a list of well-formed peer dictionaries.
pub open spec fn peers_ok(n: Node) -> bool {
    match n {
        Node::ByteString(b) => b.len() % 6 == 0,
        Node::List(l) => dict_peers_ok(l),
        _ => false,
    }
}

pub open spec fn peers_error(n: Node) -> Error {
    match n {
        Node::ByteString(_) => Error::MissingPeers,
        Node::List(l) => dict_peers_error(l),
        _ => Error::DecodingError(bencode::Error::ExpectedList),
    }
}

pub open spec fn peers_matches(n: Node, p: Peers) -> bool {
    match n {
        Node::ByteString(b) => p matches Peers::Binary(v) && v@ == compact_peers(b),
        Node::List(l) => p matches Peers::Dictionary(v) && v@.len() == l.len() && (forall|i: int|
            0 <= i < l.len() ==> dict_peer_matches(#[trigger] l[i], v@[i])),
        _ => false,
    }
}

impl Peers {
    /// Reads the `peers` value in either of its shapes.
    #[verifier::loop_isolation(false)]
    pub fn from_bencode_type(value: &Type) -> (r: Result<Peers, Error>)
        ensures
            match r {
                Ok(p) => peers_ok(node_of(*value)) && peers_matches(node_of(*value), p),
                Err(e) => !peers_ok(node_of(*value)) && e == peers_error(node_of(*value)),
            },
    {
        match value {
            Type::String(b, _) => {
                if b.len() % 6 != 0 {
                    return Err(Error::MissingPeers);
                }
                let count = b.len() / 6;
                assert(6 * count == b@.len());
                let mut out: Vec<PeerAddr> = Vec::new();
                let mut i: usize = 0;
                while i < count
                    invariant
                        i <= count,
                        out@.len() == i,
                        forall|j: int| 0 <= j < i ==> out@[j] == compact_peers(b@)[j],
                    decreases count - i,
                {
                    assert(6 * i >= 0 && 6 * i + 6 <= 6 * count) by (nonlinear_arith)
                        requires
                            0 <= i,
                            i + 1 <= count,
                    ;
                    let base = 6 * i;
                    let p = PeerAddr {
                        ip0: b[base],
                        ip1: b[base + 1],
                        ip2: b[base + 2],
                        ip3: b[base + 3],
                        port: (b[base + 4] as u16) * 256 + (b[base + 5] as u16),
                    };
                    out.push(p);
                    i = i + 1;
                }
                assert(out@ =~= compact_peers(b@));
                Ok(Peers::Binary(out))
            },
            Type::List(l, _) => {
                let ghost lv = views_of(l@);
                let mut out: Vec<DictPeer> = Vec::new();
                let mut i: usize = 0;
                while i < l.len()
                    invariant
                        i <= l@.len(),
                        out@.len() == i,
                        forall|j: int| 0 <= j < i ==> dict_peer_ok(#[trigger] lv[j]),
                        forall|j: int|
                            0 <= j < i ==> dict_peer_matches(#[trigger] lv[j], out@[j]),
                    decreases l@.len() - i,
                {
                    let entry = &l[i];
                    let pairs = match entry {
                        Type::Dict(pairs, _) => pairs,
                        _ => {
                            proof {
                                lemma_dict_peers_error_at(lv, i as int);
                            }
                            return Err(Error::DecodingError(bencode::Error::ExpectedMap));
                        },
                    };
                    let peer_id = match dict_find(pairs, &kb_peer_id()) {
                        Some(t) => match t {
                            Type::String(s, _) => vstd::slice::slice_to_vec(s.as_slice()),
                            _ => {
                                proof {
                                    lemma_dict_peers_error_at(lv, i as int);
                                }
                                return Err(Error::MissingPeerId);
                            },
                        },
                        None => {
                            proof {
                                lemma_dict_peers_error_at(lv, i as int);
                            }
                            return Err(Error::MissingPeerId);
                        },
                    };
                    let ip = match dict_find(pairs, &kb_ip()) {
                        Some(t) => match t {
                            Type::String(s, _) => vstd::slice::slice_to_vec(s.as_slice()),
                            _ => {
                                proof {
                                    lemma_dict_peers_error_at(lv, i as int);
                                }
                                return Err(Error::MissingPeerIp);
                            },
                        },
                        None => {
                            proof {
                                lemma_dict_peers_error_at(lv, i as int);
                            }
                            return Err(Error::MissingPeerIp);
                        },
                    };
                    let port = match dict_find(pairs, &kb_port()) {
                        Some(t) => match t {
                            Type::Integer(d, _) => match parse_u32_digits(d) {
                                Some(v) => {
                                    if v > 0xffff {
                                        proof {
                                            lemma_dict_peers_error_at(lv, i as int);
                                        }
                                        return Err(Error::MissingPeerPort);
                                    }
                                    v as u16
                                },
                                None => {
                                    proof {
                                        lemma_dict_peers_error_at(lv, i as int);
                                    }
                                    return Err(Error::MissingPeerPort);
                                },
                            },
                            _ => {
                                proof {
                                    lemma_dict_peers_error_at(lv, i as int);
                                }
                                return Err(Error::MissingPeerPort);
                            },
                        },
                        None => {
                            proof {
                                lemma_dict_peers_error_at(lv, i as int);
                            }
                            return Err(Error::MissingPeerPort);
                        },
                    };
                    out.push(DictPeer { peer_id, ip, port });
                    i = i + 1;
                }
                Ok(Peers::Dictionary(out))
            },
            _ => Err(Error::DecodingError(bencode::Error::ExpectedList)),
        }
    }
}

/// A decoded tracker response.
#[derive(Debug, PartialEq, Eq)]
pub struct TrackerResponse {
    pub warning_message: Option<Vec<u8>>,
    pub interval: u32,
    pub min_interval: Option<u32>,
    pub tracker_id: Option<Vec<u8>>,
    pub complete: Option<u32>,
    pub incomplete: Option<u32>,
    pub peers: Peers,
}

/// A well-formed response dictionary: a 32-bit `interval` and a well-formed
/// `peers` value.
pub open spec fn resp_ok(ps: Seq<(Node, Node)>) -> bool {
    &&& uint_field_ok(ps, key_interval(), 0, u32::MAX as int)
    &&& dict_get(ps, key_peers()) matches Some(pn) && peers_ok(pn)
}

pub open spec fn resp_error(ps: Seq<(Node, Node)>) -> Error {
    if !uint_field_ok(ps, key_interval(), 0, u32::MAX as int) {
        Error::MissingInterval
    } else {
        match dict_get(ps, key_peers()) {
            None => Error::MissingPeers,
            Some(pn) => peers_error(pn),
        }
    }
}

pub open spec fn resp_matches(ps: Seq<(Node, Node)>, r: TrackerResponse) -> bool {
    &&& r.interval == uint_field_val(ps, key_interval())
    &&& dict_get(ps, key_peers()) matches Some(pn) && peers_matches(pn, r.peers)
    &&& match str_field(ps, key_warning_message()) {
        Some(b) => r.warning_message matches Some(w) && w@ == b,
        None => r.warning_message is None,
    }
    &&& r.min_interval == opt_u32_field(ps, key_min_interval())
    &&& match str_field(ps, key_tracker_id()) {
        Some(b) => r.tracker_id matches Some(t) && t@ == b,
        None => r.tracker_id is None,
    }
    &&& r.complete == opt_u32_field(ps, key_complete())
    &&& r.incomplete == opt_u32_field(ps, key_incomplete())
}

/// Whether `\r\n\r\n` stands at `i`.
pub open spec fn hdr_at(s: Seq<u8>, i: int) -> bool {
    s[i] == 13 && s[i + 1] == 10 && s[i + 2] == 13 && s[i + 3] == 10
}

/// The first position at or after `pos` where the header terminator stands.
pub open spec fn find_hdr(s: Seq<u8>, pos: int) -> Option<int>
    decreases s.len() - pos,
{
    if pos < 0 || pos + 4 > s.len() {
        None
    } else if hdr_at(s, pos) {
        Some(pos)
    } else {
        find_hdr(s, pos + 1)
    }
}

/// Where the bencoded body of a tracker response begins: right after the
/// first header terminator, or at the start when there is none.
pub open spec fn body_start(s: Seq<u8>) -> int {
    match find_hdr(s, 0) {
        Some(i) => i + 4,
        None => 0,
    }
}

fn scan_header_end(bytes: &[u8]) -> (r: usize)
    ensures
        r == body_start(bytes@),
        r <= bytes@.len(),
{
    let n = bytes.len();
    let mut i: usize = 0;
    if n < 4 {
        return 0;
    }
    while i <= n - 4
        invariant
            n >= 4,
            i <= n - 4 + 1,
            n == bytes@.len(),
            find_hdr(bytes@, 0) == find_hdr(bytes@, i as int),
        decreases n - i,
    {
        if bytes[i] == 13 && bytes[i + 1] == 10 && bytes[i + 2] == 13 && bytes[i + 3] == 10 {
            return i + 4;
        }
        i = i + 1;
    }
    0
}

/// Opaque-field accessors named as the response's consumers expect.
impl TrackerResponse {
    /// The warning message; the caller must know it is present.
    pub fn warning_message(&self) -> (r: &Vec<u8>)
        requires
            self.warning_message is Some,
        ensures
            self.warning_message matches Some(w) && r == &w,
    {
        self.warning_message.as_ref().unwrap()
    }

    pub fn interval(&self) -> (r: u32)
        ensures
            r == self.interval,
    {
        self.interval
    }

    pub fn min_interval(&self) -> (r: Option<u32>)
        ensures
            r == self.min_interval,
    {
        self.min_interval
    }

    pub fn tracker_id(&self) -> (r: Option<&Vec<u8>>)
        ensures
            match r {
                Some(t) => self.tracker_id matches Some(v) && v == t,
                None => self.tracker_id is None,
            },
    {
        self.tracker_id.as_ref()
    }

    pub fn complete(&self) -> (r: Option<u32>)
        ensures
            r == self.complete,
    {
        self.complete
    }

    pub fn incomplete(&self) -> (r: Option<u32>)
        ensures
            r == self.incomplete,
    {
        self.incomplete
    }

    pub fn peers(&self) -> (r: &Peers)
        ensures
            r == &self.peers,
    {
        &self.peers
    }

    /// Decodes a tracker response from the raw HTTP bytes: the bencoded
    /// dictionary begins after the first blank line (or at the start when no
    /// headers are present).
    pub fn from_bencode(bytes: &[u8]) -> (r: Result<TrackerResponse, Error>)
        ensures
            match r {
                Ok(resp) => spec_parse(bytes@, body_start(bytes@)) matches Ok((n, k)) && n matches
                    Node::Dict(ps) && resp_ok(ps) && resp_matches(ps, resp),
                Err(e) => match spec_parse(bytes@, body_start(bytes@)) {
                    Err(de) => e == Error::DecodingError(de),
                    Ok((n, k)) => if !(n is Dict) {
                        e == Error::DecodingError(bencode::Error::ExpectedMap)
                    } else {
                        !resp_ok(n->Dict_0) && e == resp_error(n->Dict_0)
                    },
                },
            },
    {
        let start = scan_header_end(bytes);
        let t = match parse_value(bytes, start) {
            Ok((t, _)) => t,
            Err(e) => {
                return Err(Error::DecodingError(e));
            },
        };
        let pairs = match &t {
            Type::Dict(pairs, _) => pairs,
            _ => {
                return Err(Error::DecodingError(bencode::Error::ExpectedMap));
            },
        };
        let ghost ps = node_of(t)->Dict_0;
        assert(ps == pair_views_of(pairs@));
        let interval = match dict_find(pairs, &kb_interval()) {
            Some(t2) => match t2 {
                Type::Integer(d, _) => match parse_u32_digits(d) {
                    Some(v) => v,
                    None => {
                        return Err(Error::MissingInterval);
                    },
                },
                _ => {
                    return Err(Error::MissingInterval);
                },
            },
            None => {
                return Err(Error::MissingInterval);
            },
        };
        let peers_t = match dict_find(pairs, &kb_peers()) {
            Some(t2) => t2,
            None => {
                return Err(Error::MissingPeers);
            },
        };
        let peers = match Peers::from_bencode_type(peers_t) {
            Ok(p) => p,
            Err(e) => {
                return Err(e);
            },
        };
        let warning_message = match dict_find(pairs, &kb_warning_message()) {
            Some(t2) => match t2 {
                Type::String(b, _) => Some(vstd::slice::slice_to_vec(b.as_slice())),
                _ => None,
            },
            None => None,
        };
        let min_interval = match dict_find(pairs, &kb_min_interval()) {
            Some(t2) => match t2 {
                Type::Integer(d, _) => parse_u32_digits(d),
                _ => None,
            },
            None => None,
        };
        let tracker_id = match dict_find(pairs, &kb_tracker_id()) {
            Some(t2) => match t2 {
                Type::String(b, _) => Some(vstd::slice::slice_to_vec(b.as_slice())),
                _ => None,
            },
            None => None,
        };
        let complete = match dict_find(pairs, &kb_complete()) {
            Some(t2) => match t2 {
                Type::Integer(d, _) => parse_u32_digits(d),
                _ => None,
            },
            None => None,
        };
        let incomplete = match dict_find(pairs, &kb_incomplete()) {
            Some(t2) => match t2 {
                Type::Integer(d, _) => parse_u32_digits(d),
                _ => None,
            },
            None => None,
        };
        Ok(
            TrackerResponse {
                warning_message,
                interval,
                min_interval,
                tracker_id,
                complete,
                incomplete,
                peers,
            },
        )
    }
}

/// The kinds of I/O failure the announce loop distinguishes.
#[derive(Debug, Clone, Copy, PartialEq, Eq, Structural)]
pub enum IoKind {
    ConnectionReset,
    ConnectionAborted,
    PermissionDenied,
    TimedOut,
    Other,
}

/// Whether an announce that failed this way is retried against the same
/// tracker; any other failure surfaces.
pub fn announce_retry(kind: IoKind) -> (r: bool)
    ensures
        r == (kind is ConnectionReset || kind is ConnectionAborted || kind is PermissionDenied
            || kind is TimedOut),
{
    match kind {
        IoKind::ConnectionReset => true,
        IoKind::ConnectionAborted => true,
        IoKind::PermissionDenied => true,
        IoKind::TimedOut => true,
        IoKind::Other => false,
    }
}

} // verus!

