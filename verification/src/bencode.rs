//! Bencode codec.
//!
//! The decoder turns a byte slice into a [`Type`] tree in which every node
//! keeps the exact bytes it was decoded from (its raw slice), so that the
//! SHA-1 of the `info` dictionary can later be computed bit-exactly.
//! Conforming input is canonical: integers carry no superfluous leading
//! zeros, `-0` does not occur, and dictionary keys are byte strings in
//! strictly increasing byte-lexicographic order.  The decoder accepts exactly
//! the canonical form, so the raw slice of every decoded node equals the
//! re-encoding of that node.

use vstd::prelude::*;

verus! {

/// Everything that can go wrong while decoding bencode, or while coercing a
/// decoded value to an expected variant.
#[derive(Debug, Clone, Copy, PartialEq, Eq, Structural)]
pub enum Error {
    EmptyInteger,
    NotEnoughBytes,
    NotAnInteger,
    UnclosedInteger,
    UnclosedList,
    UnclosedMap,
    NegativeZero,
    LeadingZero,
    MissingColon,
    UnsortedKeys,
    ExpectedMap,
    ExpectedString,
    ExpectedInteger,
    ExpectedList,
}

/// A decoded bencode value.  The second field of every variant holds the raw
/// bencode bytes of the node, including the leading type marker and the
/// trailing terminator.  Integers keep their textual form; consumers choose
/// the numeric domain.
#[derive(Debug, PartialEq, Eq)]
pub enum Type {
    String(Vec<u8>, Vec<u8>),
    Integer(Vec<u8>, Vec<u8>),
    List(Vec<Type>, Vec<u8>),
    Dict(Vec<(Type, Type)>, Vec<u8>),
}

/// The mathematical shape of a bencode value, without the raw bytes.
pub ghost enum Node {
    ByteString(Seq<u8>),
    Integer(Seq<u8>),
    List(Seq<Node>),
    Dict(Seq<(Node, Node)>),
}

/// The abstract value of a [`Type`] tree: the same tree over sequences, with
/// the raw slices stripped.
pub open spec fn node_of(t: Type) -> Node
    decreases t,
{
    match t {
        Type::String(s, _) => Node::ByteString(s@),
        Type::Integer(d, _) => Node::Integer(d@),
        Type::List(items, _) => Node::List(views_of(items@)),
        Type::Dict(pairs, _) => Node::Dict(pair_views_of(pairs@)),
    }
}

/// The abstract values of a sequence of decoded values.
pub open spec fn views_of(ts: Seq<Type>) -> Seq<Node>
    decreases ts,
{
    Seq::new(
        ts.len(),
        |i: int|
            if 0 <= i < ts.len() {
                node_of(ts[i])
            } else {
                arbitrary()
            },
    )
}

/// The abstract values of a sequence of decoded key-value pairs.
pub open spec fn pair_views_of(ps: Seq<(Type, Type)>) -> Seq<(Node, Node)>
    decreases ps,
{
    Seq::new(
        ps.len(),
        |i: int|
            if 0 <= i < ps.len() {
                (node_of(ps[i].0), node_of(ps[i].1))
            } else {
                arbitrary()
            },
    )
}

impl View for Type {
    type V = Node;

    open spec fn view(&self) -> Node {
        node_of(*self)
    }
}

/// The raw bencode bytes stored in the root of a [`Type`] tree.
pub open spec fn raw_of(t: Type) -> Seq<u8> {
    match t {
        Type::String(_, r) => r@,
        Type::Integer(_, r) => r@,
        Type::List(_, r) => r@,
        Type::Dict(_, r) => r@,
    }
}

/// The decimal digits of `n`, most significant first, as ASCII bytes.
pub open spec fn dec_digits(n: nat) -> Seq<u8>
    decreases n,
{
    if n < 10 {
        seq![(48 + n) as u8]
    } else {
        dec_digits(n / 10) + seq![(48 + n % 10) as u8]
    }
}

/// The canonical encoding of a [`Node`].
pub open spec fn encoded(n: Node) -> Seq<u8>
    decreases n,
{
    match n {
        Node::ByteString(s) => dec_digits(s.len()) + seq![58u8] + s,
        Node::Integer(d) => seq![105u8] + d + seq![101u8],
        Node::List(ns) => seq![108u8] + encoded_seq(ns) + seq![101u8],
        Node::Dict(ps) => seq![100u8] + encoded_pairs(ps) + seq![101u8],
    }
}

/// The concatenated encodings of a sequence of nodes.
pub open spec fn encoded_seq(ns: Seq<Node>) -> Seq<u8>
    decreases ns,
{
    if ns.len() == 0 {
        Seq::empty()
    } else {
        encoded(ns[0]) + encoded_seq(ns.drop_first())
    }
}

/// The concatenated encodings of a sequence of key-value pairs.
pub open spec fn encoded_pairs(ps: Seq<(Node, Node)>) -> Seq<u8>
    decreases ps,
{
    if ps.len() == 0 {
        Seq::empty()
    } else {
        encoded(ps[0].0) + encoded(ps[0].1) + encoded_pairs(ps.drop_first())
    }
}

pub open spec fn is_ascii_digit(b: u8) -> bool {
    48 <= b <= 57
}

/// A byte that can begin a bencode value.
pub open spec fn is_starter(b: u8) -> bool {
    is_ascii_digit(b) || b == 105 || b == 108 || b == 100
}

pub open spec fn all_digits(d: Seq<u8>) -> bool {
    forall|i: int| 0 <= i < d.len() ==> is_ascii_digit(#[trigger] d[i])
}

/// The first position at or after `pos` that does not hold an ASCII digit.
pub open spec fn digits_end(s: Seq<u8>, pos: int) -> int
    decreases s.len() - pos,
{
    if pos < 0 || pos >= s.len() || !is_ascii_digit(s[pos]) {
        pos
    } else {
        digits_end(s, pos + 1)
    }
}

/// The numeric value of a string of ASCII digits.
pub open spec fn digits_val(d: Seq<u8>) -> int
    decreases d.len(),
{
    if d.len() == 0 {
        0
    } else {
        digits_val(d.drop_last()) * 10 + (d.last() - 48)
    }
}

/// The textual form of a bencode integer: an optional minus sign followed by
/// digits, with no leading zero for values other than zero and no `-0`.
pub open spec fn valid_int_text(d: Seq<u8>) -> bool {
    if d.len() == 0 {
        false
    } else if d[0] == 45 {
        d.len() >= 2 && all_digits(d.skip(1)) && d[1] != 48
    } else {
        all_digits(d) && (d[0] == 48 ==> d.len() == 1)
    }
}

/// Strict byte-lexicographic order.
pub open spec fn lex_lt(a: Seq<u8>, b: Seq<u8>) -> bool
    decreases a.len(),
{
    if b.len() == 0 {
        false
    } else if a.len() == 0 {
        true
    } else if a[0] < b[0] {
        true
    } else if a[0] > b[0] {
        false
    } else {
        lex_lt(a.drop_first(), b.drop_first())
    }
}

/// The key bytes of a dictionary key node.
pub open spec fn key_bytes(n: Node) -> Seq<u8> {
    match n {
        Node::ByteString(s) => s,
        _ => Seq::empty(),
    }
}

/// Dictionary keys in strictly increasing byte-lexicographic order.
pub open spec fn sorted_keys(ps: Seq<(Node, Node)>) -> bool {
    forall|i: int| 0 <= i && i + 1 < ps.len() ==> lex_lt(
        key_bytes(ps[i].0),
        key_bytes(#[trigger] ps[i + 1].0),
    )
}

/// A canonical bencode value: integer texts are in canonical form and every
/// dictionary has byte-string keys in strictly increasing order.  Every value
/// the decoder produces is canonical.
pub open spec fn canonical(n: Node) -> bool
    decreases n,
{
    match n {
        Node::ByteString(_) => true,
        Node::Integer(d) => valid_int_text(d),
        Node::List(ns) => forall|i: int| 0 <= i < ns.len() ==> canonical(#[trigger] ns[i]),
        Node::Dict(ps) => {
            &&& forall|i: int|
                0 <= i < ps.len() ==> (#[trigger] ps[i].0) is ByteString && canonical(ps[i].0)
                    && canonical(ps[i].1)
            &&& sorted_keys(ps)
        },
    }
}

/// Raw-slice fidelity: at every node of the tree, the stored raw slice is
/// exactly the canonical encoding of the node's value.
pub open spec fn raws_ok(t: Type) -> bool
    decreases t,
{
    &&& raw_of(t) == encoded(node_of(t))
    &&& match t {
        Type::List(items, _) => forall|i: int|
            0 <= i < items@.len() ==> raws_ok(#[trigger] items@[i]),
        Type::Dict(pairs, _) => forall|i: int|
            0 <= i < pairs@.len() ==> raws_ok((#[trigger] pairs@[i]).0) && raws_ok(pairs@[i].1),
        _ => true,
    }
}

/// What decoding one value starting at `pos` yields: the decoded node and the
/// number of bytes it occupies, or the error.  This function is the
/// specification of the decoder.
pub open spec fn spec_parse(s: Seq<u8>, pos: int) -> Result<(Node, int), Error>
    decreases s.len() - pos, 0int,
{
    if s.len() - pos < 2 {
        Err(Error::NotEnoughBytes)
    } else {
        let c = s[pos];
        if is_ascii_digit(c) {
            let dend = digits_end(s, pos);
            if dend >= s.len() {
                Err(Error::NotEnoughBytes)
            } else if s[dend] != 58 {
                Err(Error::MissingColon)
            } else if c == 48 && dend - pos > 1 {
                Err(Error::LeadingZero)
            } else {
                let len = digits_val(s.subrange(pos, dend));
                if dend + 1 + len > s.len() {
                    Err(Error::NotEnoughBytes)
                } else {
                    Ok((Node::ByteString(s.subrange(dend + 1, dend + 1 + len)), dend + 1 + len - pos))
                }
            }
        } else if c == 105 {
            let q = pos + 1;
            if s[q] == 101 {
                Err(Error::EmptyInteger)
            } else {
                let neg = s[q] == 45;
                let dstart = if neg { q + 1 } else { q };
                if dstart >= s.len() {
                    Err(Error::UnclosedInteger)
                } else if !is_ascii_digit(s[dstart]) {
                    Err(Error::NotAnInteger)
                } else {
                    let dend = digits_end(s, dstart);
                    if dend >= s.len() || s[dend] != 101 {
                        Err(Error::UnclosedInteger)
                    } else if s[dstart] == 48 && dend - dstart > 1 {
                        Err(Error::LeadingZero)
                    } else if neg && s[dstart] == 48 {
                        Err(Error::NegativeZero)
                    } else {
                        Ok((Node::Integer(s.subrange(q, dend)), dend + 1 - pos))
                    }
                }
            }
        } else if c == 108 {
            match spec_parse_items(s, pos + 1) {
                Ok((ns, k)) => Ok((Node::List(ns), 1 + k)),
                Err(e) => Err(e),
            }
        } else if c == 100 {
            match spec_parse_pairs(s, pos + 1) {
                Ok((ps, k)) => if sorted_keys(ps) {
                    Ok((Node::Dict(ps), 1 + k))
                } else {
                    Err(Error::UnsortedKeys)
                },
                Err(e) => Err(e),
            }
        } else {
            Err(Error::NotEnoughBytes)
        }
    }
}

/// What decoding the elements of a list yields, starting just after the `l`
/// marker and consuming the closing `e`.
pub open spec fn spec_parse_items(s: Seq<u8>, pos: int) -> Result<(Seq<Node>, int), Error>
    decreases s.len() - pos, 2int,
{
    if pos >= s.len() {
        Err(Error::UnclosedList)
    } else if s[pos] == 101 {
        Ok((Seq::empty(), 1))
    } else if !is_starter(s[pos]) {
        Err(Error::UnclosedList)
    } else {
        match spec_parse(s, pos) {
            Err(e) => Err(e),
            Ok((n, k)) => if k <= 0 || pos + k > s.len() {
                Err(Error::UnclosedList)
            } else {
                match spec_parse_items(s, pos + k) {
                    Err(e) => Err(e),
                    Ok((ns, k2)) => Ok((seq![n] + ns, k + k2)),
                }
            },
        }
    }
}

/// What decoding the entries of a dictionary yields, starting just after the
/// `d` marker and consuming the closing `e`.  Keys must be byte strings.
pub open spec fn spec_parse_pairs(s: Seq<u8>, pos: int) -> Result<(Seq<(Node, Node)>, int), Error>
    decreases s.len() - pos, 2int,
{
    if pos >= s.len() {
        Err(Error::UnclosedMap)
    } else if s[pos] == 101 {
        Ok((Seq::empty(), 1))
    } else if !is_starter(s[pos]) {
        Err(Error::UnclosedMap)
    } else {
        match spec_parse(s, pos) {
            Err(e) => Err(e),
            Ok((kn, k1)) => if !(kn is ByteString) {
                Err(Error::ExpectedString)
            } else if k1 <= 0 || pos + k1 > s.len() {
                Err(Error::UnclosedMap)
            } else {
                match spec_parse(s, pos + k1) {
                    Err(e) => Err(e),
                    Ok((vn, k2)) => if k2 <= 0 || pos + k1 + k2 > s.len() {
                        Err(Error::UnclosedMap)
                    } else {
                        match spec_parse_pairs(s, pos + k1 + k2) {
                            Err(e) => Err(e),
                            Ok((ps, k3)) => Ok((seq![(kn, vn)] + ps, k1 + k2 + k3)),
                        }
                    },
                }
            },
        }
    }
}

proof fn lemma_digits_end_bounds(s: Seq<u8>, pos: int)
    requires
        0 <= pos <= s.len(),
    ensures
        pos <= digits_end(s, pos) <= s.len(),
        forall|i: int| pos <= i < digits_end(s, pos) ==> is_ascii_digit(#[trigger] s[i]),
        digits_end(s, pos) < s.len() ==> !is_ascii_digit(s[digits_end(s, pos)]),
    decreases s.len() - pos,
{
    if pos < s.len() && is_ascii_digit(s[pos]) {
        lemma_digits_end_bounds(s, pos + 1);
    }
}

proof fn lemma_digits_end_exact(s: Seq<u8>, pos: int, end: int)
    requires
        0 <= pos <= end <= s.len(),
        forall|i: int| pos <= i < end ==> is_ascii_digit(#[trigger] s[i]),
        end == s.len() || !is_ascii_digit(s[end]),
    ensures
        digits_end(s, pos) == end,
    decreases end - pos,
{
    if pos < end {
        lemma_digits_end_exact(s, pos + 1, end);
    }
}

proof fn lemma_digits_val_bounds(d: Seq<u8>)
    requires
        all_digits(d),
    ensures
        digits_val(d) >= 0,
        d.len() >= 1 && d[0] > 48 ==> digits_val(d) >= 1,
    decreases d.len(),
{
    if d.len() > 0 {
        let p = d.drop_last();
        assert(all_digits(p)) by {
            assert(forall|i: int| 0 <= i < p.len() ==> p[i] == d[i]);
        }
        lemma_digits_val_bounds(p);
        if d.len() >= 2 && d[0] > 48 {
            assert(p[0] == d[0]);
        }
    }
}

proof fn lemma_dec_digits_props(n: nat)
    ensures
        dec_digits(n).len() >= 1,
        all_digits(dec_digits(n)),
        dec_digits(n)[0] == 48 ==> n == 0,
        digits_val(dec_digits(n)) == n,
    decreases n,
{
    if n < 10 {
        let w = dec_digits(n);
        assert(w =~= seq![(48 + n) as u8]);
        assert(w.last() == (48 + n) as u8);
        assert(w.drop_last() =~= Seq::<u8>::empty());
        assert(digits_val(w.drop_last()) == 0);
        assert(digits_val(w) == digits_val(w.drop_last()) * 10 + (w.last() - 48));
    } else {
        lemma_dec_digits_props(n / 10);
        let p = dec_digits(n / 10);
        let w = dec_digits(n);
        assert(w =~= p + seq![(48 + n % 10) as u8]);
        assert(w[0] == p[0]);
        assert(w.drop_last() =~= p);
        assert(w.last() == (48 + n % 10) as u8);
        assert(digits_val(w) == digits_val(p) * 10 + (48 + n % 10) - 48);
        assert((n / 10) * 10 + n % 10 == n) by (nonlinear_arith);
    }
}

proof fn lemma_dec_digits_inverse(d: Seq<u8>)
    requires
        all_digits(d),
        d.len() >= 1,
        d[0] == 48 ==> d.len() == 1,
    ensures
        digits_val(d) >= 0,
        dec_digits(digits_val(d) as nat) == d,
    decreases d.len(),
{
    lemma_digits_val_bounds(d);
    if d.len() == 1 {
        assert(d.drop_last() =~= Seq::<u8>::empty());
        assert(digits_val(d.drop_last()) == 0);
        assert(d.last() == d[0]);
        assert(digits_val(d) == digits_val(d.drop_last()) * 10 + (d.last() - 48));
        assert(dec_digits((d[0] - 48) as nat) =~= d);
    } else {
        let p = d.drop_last();
        assert(all_digits(p)) by {
            assert(forall|i: int| 0 <= i < p.len() ==> p[i] == d[i]);
        }
        assert(p[0] == d[0]);
        lemma_dec_digits_inverse(p);
        lemma_digits_val_bounds(p);
        let vp = digits_val(p);
        let r = d.last() - 48;
        let v = digits_val(d);
        assert(v == vp * 10 + r);
        assert(vp >= 1);
        assert(v >= 10 && v / 10 == vp && v % 10 == r) by (nonlinear_arith)
            requires
                v == vp * 10 + r,
                vp >= 1,
                0 <= r < 10,
        ;
        assert(dec_digits(v as nat) == dec_digits((v as nat) / 10) + seq![
            (48 + (v as nat) % 10) as u8,
        ]);
        assert((v as nat) / 10 == vp as nat);
        assert(dec_digits(v as nat) =~= p + seq![d.last()]);
        assert(p + seq![d.last()] =~= d);
    }
}

/// Every encoding is at least two bytes long and begins with a byte that can
/// begin a value (never with the terminator `e`).
proof fn lemma_encoded_shape(n: Node)
    ensures
        encoded(n).len() >= 2,
        is_starter(encoded(n)[0]),
        encoded(n)[0] != 101,
{
    match n {
        Node::ByteString(s) => {
            lemma_dec_digits_props(s.len());
            assert(encoded(n)[0] == dec_digits(s.len())[0]);
        },
        Node::Integer(_) => {},
        Node::List(_) => {},
        Node::Dict(_) => {},
    }
}

/// Soundness of the parsing specification: a successfully decoded value is
/// canonical, and its canonical encoding is exactly the consumed input range.
pub proof fn lemma_parse_sound(s: Seq<u8>, pos: int)
    requires
        0 <= pos,
    ensures
        spec_parse(s, pos) matches Ok((n, k)) ==> {
            &&& 2 <= k
            &&& pos + k <= s.len()
            &&& encoded(n) == s.subrange(pos, pos + k)
            &&& canonical(n)
        },
    decreases s.len() - pos, 0int,
{
    if s.len() - pos < 2 {
        return ;
    }
    let c = s[pos];
    if is_ascii_digit(c) {
        lemma_digits_end_bounds(s, pos);
        let dend = digits_end(s, pos);
        if dend < s.len() && s[dend] == 58 && !(c == 48 && dend - pos > 1) {
            let digs = s.subrange(pos, dend);
            assert(digs.len() >= 1);
            assert(all_digits(digs)) by {
                assert(forall|i: int| 0 <= i < digs.len() ==> digs[i] == s[pos + i]);
            }
            assert(digs[0] == c);
            let v = digits_val(digs);
            lemma_digits_val_bounds(digs);
            if dend + 1 + v <= s.len() {
                lemma_dec_digits_inverse(digs);
                let content = s.subrange(dend + 1, dend + 1 + v);
                let m = Node::ByteString(content);
                assert(encoded(m) == dec_digits(content.len()) + seq![58u8] + content);
                assert(content.len() == v as nat);
                assert(encoded(m) =~= s.subrange(pos, dend + 1 + v));
            }
        }
    } else if c == 105 {
        let q = pos + 1;
        if s[q] != 101 {
            let neg = s[q] == 45;
            let dstart: int = if neg {
                q + 1
            } else {
                q
            };
            if dstart < s.len() && is_ascii_digit(s[dstart]) {
                lemma_digits_end_bounds(s, dstart);
                let dend = digits_end(s, dstart);
                assert(dend > dstart);
                if dend < s.len() && s[dend] == 101 && !(s[dstart] == 48 && dend - dstart > 1)
                    && !(neg && s[dstart] == 48) {
                    let d = s.subrange(q, dend);
                    let m = Node::Integer(d);
                    assert(valid_int_text(d)) by {
                        if neg {
                            assert(d[0] == 45);
                            assert(d.len() >= 2);
                            assert(d[1] == s[dstart]);
                            assert(all_digits(d.skip(1))) by {
                                assert(forall|i: int|
                                    0 <= i < d.skip(1).len() ==> d.skip(1)[i] == s[dstart + i]);
                            }
                        } else {
                            assert(all_digits(d)) by {
                                assert(forall|i: int| 0 <= i < d.len() ==> d[i] == s[q + i]);
                            }
                            assert(d[0] == s[dstart]);
                            if d[0] == 48 {
                                assert(dend - dstart == 1);
                            }
                        }
                    }
                    assert(encoded(m) =~= s.subrange(pos, dend + 1));
                }
            }
        }
    } else if c == 108 {
        lemma_items_sound(s, pos + 1);
        match spec_parse_items(s, pos + 1) {
            Ok((ns, k)) => {
                let m = Node::List(ns);
                assert(encoded(m) == s.subrange(pos, pos + 1 + k)) by {
                    assert(encoded_seq(ns) + seq![101u8] == s.subrange(pos + 1, pos + 1 + k));
                    assert(encoded(m) =~= seq![108u8] + (encoded_seq(ns) + seq![101u8]));
                    assert(s.subrange(pos, pos + 1 + k) =~= seq![108u8] + s.subrange(
                        pos + 1,
                        pos + 1 + k,
                    ));
                }
            },
            Err(_) => {},
        }
    } else if c == 100 {
        lemma_pairs_sound(s, pos + 1);
        match spec_parse_pairs(s, pos + 1) {
            Ok((ps, k)) => {
                if sorted_keys(ps) {
                    let m = Node::Dict(ps);
                    assert(encoded(m) == s.subrange(pos, pos + 1 + k)) by {
                        assert(encoded_pairs(ps) + seq![101u8] == s.subrange(pos + 1, pos + 1 + k));
                        assert(encoded(m) =~= seq![100u8] + (encoded_pairs(ps) + seq![101u8]));
                        assert(s.subrange(pos, pos + 1 + k) =~= seq![100u8] + s.subrange(
                            pos + 1,
                            pos + 1 + k,
                        ));
                    }
                }
            },
            Err(_) => {},
        }
    }
}

/// Soundness of the list-elements parsing specification.
pub proof fn lemma_items_sound(s: Seq<u8>, pos: int)
    requires
        0 <= pos,
    ensures
        spec_parse_items(s, pos) matches Ok((ns, k)) ==> {
            &&& 1 <= k
            &&& pos + k <= s.len()
            &&& encoded_seq(ns) + seq![101u8] == s.subrange(pos, pos + k)
            &&& forall|i: int| 0 <= i < ns.len() ==> canonical(#[trigger] ns[i])
        },
    decreases s.len() - pos, 2int,
{
    if pos >= s.len() {
        return ;
    }
    if s[pos] == 101 {
        assert(encoded_seq(Seq::<Node>::empty()) + seq![101u8] =~= s.subrange(pos, pos + 1));
        return ;
    }
    if !is_starter(s[pos]) {
        return ;
    }
    lemma_parse_sound(s, pos);
    match spec_parse(s, pos) {
        Err(_) => {},
        Ok((n, k)) => {
            lemma_items_sound(s, pos + k);
            match spec_parse_items(s, pos + k) {
                Err(_) => {},
                Ok((ns2, k2)) => {
                    let ns = seq![n] + ns2;
                    assert(ns.drop_first() =~= ns2);
                    assert(ns[0] == n);
                    assert(encoded_seq(ns) == encoded(n) + encoded_seq(ns2));
                    assert(encoded_seq(ns) + seq![101u8] == s.subrange(pos, pos + k + k2)) by {
                        assert(encoded(n) == s.subrange(pos, pos + k));
                        assert(encoded_seq(ns2) + seq![101u8] == s.subrange(pos + k, pos + k + k2));
                        assert(encoded_seq(ns) + seq![101u8] =~= encoded(n) + (encoded_seq(ns2)
                            + seq![101u8]));
                        assert(s.subrange(pos, pos + k + k2) =~= s.subrange(pos, pos + k)
                            + s.subrange(pos + k, pos + k + k2));
                    }
                },
            }
        },
    }
}

/// Soundness of the dictionary-entries parsing specification.
pub proof fn lemma_pairs_sound(s: Seq<u8>, pos: int)
    requires
        0 <= pos,
    ensures
        spec_parse_pairs(s, pos) matches Ok((ps, k)) ==> {
            &&& 1 <= k
            &&& pos + k <= s.len()
            &&& encoded_pairs(ps) + seq![101u8] == s.subrange(pos, pos + k)
            &&& forall|i: int|
                0 <= i < ps.len() ==> (#[trigger] ps[i].0) is ByteString && canonical(ps[i].0)
                    && canonical(ps[i].1)
        },
    decreases s.len() - pos, 2int,
{
    if pos >= s.len() {
        return ;
    }
    if s[pos] == 101 {
        assert(encoded_pairs(Seq::<(Node, Node)>::empty()) + seq![101u8] =~= s.subrange(
            pos,
            pos + 1,
        ));
        return ;
    }
    if !is_starter(s[pos]) {
        return ;
    }
    lemma_parse_sound(s, pos);
    match spec_parse(s, pos) {
        Err(_) => {},
        Ok((kn, k1)) => {
            if kn is ByteString && 0 < k1 && pos + k1 <= s.len() {
                lemma_parse_sound(s, pos + k1);
                match spec_parse(s, pos + k1) {
                    Err(_) => {},
                    Ok((vn, k2)) => {
                        lemma_pairs_sound(s, pos + k1 + k2);
                        match spec_parse_pairs(s, pos + k1 + k2) {
                            Err(_) => {},
                            Ok((ps2, k3)) => {
                                let ps = seq![(kn, vn)] + ps2;
                                assert(ps.drop_first() =~= ps2);
                                assert(ps[0] == (kn, vn));
                                assert(encoded_pairs(ps) == encoded(kn) + encoded(vn)
                                    + encoded_pairs(ps2));
                                assert(encoded_pairs(ps) + seq![101u8] == s.subrange(
                                    pos,
                                    pos + k1 + k2 + k3,
                                )) by {
                                    assert(encoded(kn) == s.subrange(pos, pos + k1));
                                    assert(encoded(vn) == s.subrange(pos + k1, pos + k1 + k2));
                                    assert(encoded_pairs(ps2) + seq![101u8] == s.subrange(
                                        pos + k1 + k2,
                                        pos + k1 + k2 + k3,
                                    ));
                                    assert(encoded_pairs(ps) + seq![101u8] =~= encoded(kn) + (
                                    encoded(vn) + (encoded_pairs(ps2) + seq![101u8])));
                                    assert(s.subrange(pos, pos + k1 + k2 + k3) =~= s.subrange(
                                        pos,
                                        pos + k1,
                                    ) + (s.subrange(pos + k1, pos + k1 + k2) + s.subrange(
                                        pos + k1 + k2,
                                        pos + k1 + k2 + k3,
                                    )));
                                }
                            },
                        }
                    },
                }
            }
        },
    }
}

/// What the decoder guarantees when it returns a value: the parsing
/// specification agrees, the node's raw slice is the consumed input range,
/// and raw-slice fidelity holds throughout the tree.
pub open spec fn parse_ok(input: Seq<u8>, pos: int, t: Type, end: int) -> bool {
    &&& pos < end <= input.len()
    &&& spec_parse(input, pos) == Ok::<(Node, int), Error>((node_of(t), end - pos))
    &&& raw_of(t) == input.subrange(pos, end)
    &&& raws_ok(t)
}

/// The decoder's contract, shared by the dispatcher and its helpers.
pub open spec fn parse_post(input: Seq<u8>, pos: int, r: Result<(Type, usize), Error>) -> bool {
    match r {
        Ok((t, end)) => parse_ok(input, pos, t, end as int),
        Err(e) => spec_parse(input, pos) == Err::<(Node, int), Error>(e),
    }
}

/// The first position at or after `from` that does not hold an ASCII digit.
fn scan_digits(input: &[u8], from: usize) -> (r: usize)
    requires
        from <= input@.len(),
    ensures
        r == digits_end(input@, from as int),
        from <= r <= input@.len(),
        forall|i: int| from <= i < r ==> is_ascii_digit(#[trigger] input@[i]),
        r < input@.len() ==> !is_ascii_digit(input@[r as int]),
{
    proof {
        lemma_digits_end_bounds(input@, from as int);
    }
    let mut i: usize = from;
    loop
        invariant
            from <= i <= input@.len(),
            digits_end(input@, from as int) == digits_end(input@, i as int),
        ensures
            from <= i <= input@.len(),
            i == digits_end(input@, from as int),
        decreases input@.len() - i,
    {
        if i >= input.len() {
            break ;
        }
        let b = input[i];
        if b < 48 || b > 57 {
            break ;
        }
        i = i + 1;
    }
    proof {
        lemma_digits_end_bounds(input@, from as int);
    }
    i
}

/// Decodes a bencode byte string (`<digits>:<bytes>`) starting at `pos`.
fn parse_byte_string(input: &[u8], pos: usize) -> (r: Result<(Type, usize), Error>)
    requires
        input@.len() - pos >= 2,
        pos < input@.len(),
        is_ascii_digit(input@[pos as int]),
    ensures
        parse_post(input@, pos as int, r),
{
    let dend = scan_digits(input, pos);
    assert(dend > pos);
    if dend >= input.len() {
        return Err(Error::NotEnoughBytes);
    }
    if input[dend] != 58 {
        return Err(Error::MissingColon);
    }
    if input[pos] == 48 && dend - pos > 1 {
        return Err(Error::LeadingZero);
    }
    let ghost digs = input@.subrange(pos as int, dend as int);
    proof {
        assert(all_digits(digs)) by {
            assert(forall|i: int| 0 <= i < digs.len() ==> digs[i] == input@[pos + i]);
        }
        lemma_digits_val_bounds(digs);
    }
    let mut acc: usize = 0;
    let mut j: usize = pos;
    while j < dend
        invariant
            pos <= j <= dend <= input@.len(),
            forall|i: int| pos <= i < dend ==> is_ascii_digit(#[trigger] input@[i]),
            digits_val(input@.subrange(pos as int, j as int)) >= 0,
            digits_val(input@.subrange(pos as int, j as int)) <= usize::MAX ==> acc == digits_val(
                input@.subrange(pos as int, j as int),
            ),
            digits_val(input@.subrange(pos as int, j as int)) > usize::MAX ==> acc == usize::MAX,
        decreases dend - j,
    {
        let d = input[j];
        let dv = (d - 48) as usize;
        let ghost pre = input@.subrange(pos as int, j as int);
        let ghost cur = input@.subrange(pos as int, j as int + 1);
        proof {
            assert(cur.drop_last() =~= pre);
            assert(cur.last() == input@[j as int]);
            assert(digits_val(cur) == digits_val(pre) * 10 + (d - 48));
            assert(digits_val(pre) >= 0);
            if digits_val(pre) > usize::MAX {
                assert(digits_val(pre) * 10 >= digits_val(pre)) by (nonlinear_arith)
                    requires
                        digits_val(pre) >= 0,
                ;
            } else {
                assert(digits_val(pre) * 10 == acc * 10);
            }
        }
        acc = match acc.checked_mul(10) {
            Some(x) => x.saturating_add(dv),
            None => usize::MAX,
        };
        j = j + 1;
    }
    assert(digits_val(digs) >= 0);
    let remaining = input.len() - (dend + 1);
    if acc > remaining {
        proof {
            if digits_val(digs) <= usize::MAX {
                assert(acc == digits_val(digs));
            }
        }
        return Err(Error::NotEnoughBytes);
    }
    assert(acc == digits_val(digs));
    let start = dend + 1;
    let content = vstd::slice::slice_to_vec(vstd::slice::slice_subrange(input, start, start + acc));
    let raw = vstd::slice::slice_to_vec(vstd::slice::slice_subrange(input, pos, start + acc));
    let t = Type::String(content, raw);
    let end = start + acc;
    proof {
        lemma_parse_sound(input@, pos as int);
        assert(spec_parse(input@, pos as int) == Ok::<(Node, int), Error>(
            (node_of(t), end - pos as int),
        ));
    }
    Ok((t, end))
}

/// Decodes a bencode integer (`i<text>e`) starting at `pos`.
fn parse_integer(input: &[u8], pos: usize) -> (r: Result<(Type, usize), Error>)
    requires
        input@.len() - pos >= 2,
        pos < input@.len(),
        input@[pos as int] == 105,
    ensures
        parse_post(input@, pos as int, r),
{
    let ilen = input.len();
    let q = pos + 1;
    let b = input[q];
    if b == 101 {
        return Err(Error::EmptyInteger);
    }
    let neg = b == 45;
    let dstart = if neg {
        q + 1
    } else {
        q
    };
    if dstart >= input.len() {
        return Err(Error::UnclosedInteger);
    }
    let d0 = input[dstart];
    if d0 < 48 || d0 > 57 {
        return Err(Error::NotAnInteger);
    }
    let dend = scan_digits(input, dstart);
    if dend >= input.len() {
        return Err(Error::UnclosedInteger);
    }
    if input[dend] != 101 {
        return Err(Error::UnclosedInteger);
    }
    if d0 == 48 && dend - dstart > 1 {
        return Err(Error::LeadingZero);
    }
    if neg && d0 == 48 {
        return Err(Error::NegativeZero);
    }
    let text = vstd::slice::slice_to_vec(vstd::slice::slice_subrange(input, q, dend));
    let raw = vstd::slice::slice_to_vec(vstd::slice::slice_subrange(input, pos, dend + 1));
    let t = Type::Integer(text, raw);
    proof {
        lemma_parse_sound(input@, pos as int);
    }
    Ok((t, dend + 1))
}

/// Relates partially decoded list elements to the whole-list specification:
/// decoding the remaining elements from `cur` and prepending what has been
/// accumulated is the same as decoding all elements from `start`.
pub open spec fn items_progress(s: Seq<u8>, start: int, cur: int, acc: Seq<Node>) -> bool {
    spec_parse_items(s, start) == (match spec_parse_items(s, cur) {
        Ok((ns, k)) => Ok::<(Seq<Node>, int), Error>((acc + ns, (cur - start) + k)),
        Err(e) => Err::<(Seq<Node>, int), Error>(e),
    })
}

/// The pairwise analogue of [`items_progress`] for dictionary entries.
pub open spec fn pairs_progress(s: Seq<u8>, start: int, cur: int, acc: Seq<(Node, Node)>) -> bool {
    spec_parse_pairs(s, start) == (match spec_parse_pairs(s, cur) {
        Ok((ps, k)) => Ok::<(Seq<(Node, Node)>, int), Error>((acc + ps, (cur - start) + k)),
        Err(e) => Err::<(Seq<(Node, Node)>, int), Error>(e),
    })
}

/// Decodes a bencode list (`l...e`) starting at `pos`.
fn parse_list(input: &[u8], pos: usize) -> (r: Result<(Type, usize), Error>)
    requires
        input@.len() - pos >= 2,
        pos < input@.len(),
        input@[pos as int] == 108,
    ensures
        parse_post(input@, pos as int, r),
    decreases input@.len() - pos, 0int,
{
    let ilen = input.len();
    let mut items: Vec<Type> = Vec::new();
    let mut cur: usize = pos + 1;
    let ghost start = pos + 1 as int;
    proof {
        assert(views_of(items@) =~= Seq::<Node>::empty());
        match spec_parse_items(input@, start) {
            Ok((ns, k)) => {
                assert(Seq::<Node>::empty() + ns =~= ns);
            },
            Err(_) => {},
        }
        assert(items_progress(input@, start, start, views_of(items@)));
    }
    loop
        invariant
            start == pos + 1,
            pos < cur <= input@.len(),
            input@.len() - pos >= 2,
            input@[pos as int] == 108,
            items_progress(input@, start, cur as int, views_of(items@)),
            forall|i: int| 0 <= i < items@.len() ==> raws_ok(#[trigger] items@[i]),
        decreases input@.len() - cur,
    {
        if cur >= input.len() {
            proof {
                assert(spec_parse_items(input@, cur as int) == Err::<(Seq<Node>, int), Error>(
                    Error::UnclosedList,
                ));
                assert(spec_parse(input@, pos as int) == Err::<(Node, int), Error>(
                    Error::UnclosedList,
                ));
            }
            return Err(Error::UnclosedList);
        }
        let b = input[cur];
        if b == 101 {
            let end = cur + 1;
            proof {
                assert(spec_parse_items(input@, cur as int) == Ok::<(Seq<Node>, int), Error>(
                    (Seq::<Node>::empty(), 1),
                ));
                assert(views_of(items@) + Seq::<Node>::empty() =~= views_of(items@));
                assert(spec_parse_items(input@, start) == Ok::<(Seq<Node>, int), Error>(
                    (views_of(items@), end - start),
                ));
                assert(spec_parse(input@, pos as int) == Ok::<(Node, int), Error>(
                    (Node::List(views_of(items@)), end - pos as int),
                ));
                lemma_parse_sound(input@, pos as int);
            }
            let raw = vstd::slice::slice_to_vec(vstd::slice::slice_subrange(input, pos, end));
            let t = Type::List(items, raw);
            assert(node_of(t) == Node::List(views_of(t->List_0@)));
            return Ok((t, end));
        }
        let starter = (48 <= b && b <= 57) || b == 105 || b == 108 || b == 100;
        if !starter {
            proof {
                assert(spec_parse_items(input@, cur as int) == Err::<(Seq<Node>, int), Error>(
                    Error::UnclosedList,
                ));
                assert(spec_parse(input@, pos as int) == Err::<(Node, int), Error>(
                    Error::UnclosedList,
                ));
            }
            return Err(Error::UnclosedList);
        }
        let sub = parse_value(input, cur);
        match sub {
            Err(e) => {
                proof {
                    assert(spec_parse_items(input@, cur as int) == Err::<(Seq<Node>, int), Error>(
                        e,
                    ));
                    assert(spec_parse(input@, pos as int) == Err::<(Node, int), Error>(e));
                }
                return Err(e);
            },
            Ok((t2, tend)) => {
                let ghost n2 = node_of(t2);
                let ghost k = tend - cur as int;
                proof {
                    let s = input@;
                    let oldviews = views_of(items@);
                    let newviews = views_of(items@.push(t2));
                    assert(newviews =~= oldviews + seq![n2]);
                    assert(spec_parse_items(s, cur as int) == (match spec_parse_items(
                        s,
                        tend as int,
                    ) {
                        Ok((ns, k2)) => Ok::<(Seq<Node>, int), Error>((seq![n2] + ns, k + k2)),
                        Err(e) => Err::<(Seq<Node>, int), Error>(e),
                    }));
                    match spec_parse_items(s, tend as int) {
                        Ok((ns, k2)) => {
                            assert((oldviews + (seq![n2] + ns)) =~= (newviews + ns));
                        },
                        Err(_) => {},
                    }
                }
                items.push(t2);
                cur = tend;
            },
        }
    }
}

/// Decodes a bencode dictionary (`d...e`) starting at `pos`.
fn parse_dict(input: &[u8], pos: usize) -> (r: Result<(Type, usize), Error>)
    requires
        input@.len() - pos >= 2,
        pos < input@.len(),
        input@[pos as int] == 100,
    ensures
        parse_post(input@, pos as int, r),
    decreases input@.len() - pos, 0int,
{
    let ilen = input.len();
    let mut pairs: Vec<(Type, Type)> = Vec::new();
    let mut cur: usize = pos + 1;
    let ghost start = pos + 1 as int;
    proof {
        assert(pair_views_of(pairs@) =~= Seq::<(Node, Node)>::empty());
        match spec_parse_pairs(input@, start) {
            Ok((ps, k)) => {
                assert(Seq::<(Node, Node)>::empty() + ps =~= ps);
            },
            Err(_) => {},
        }
        assert(pairs_progress(input@, start, start, pair_views_of(pairs@)));
    }
    loop
        invariant
            start == pos + 1,
            pos < cur <= input@.len(),
            input@.len() - pos >= 2,
            input@[pos as int] == 100,
            pairs_progress(input@, start, cur as int, pair_views_of(pairs@)),
            forall|i: int|
                0 <= i < pairs@.len() ==> raws_ok((#[trigger] pairs@[i]).0) && raws_ok(
                    pairs@[i].1,
                ),
            forall|i: int| 0 <= i < pairs@.len() ==> (#[trigger] pairs@[i]).0 is String,
        decreases input@.len() - cur,
    {
        if cur >= input.len() {
            proof {
                assert(spec_parse_pairs(input@, cur as int) == Err::<
                    (Seq<(Node, Node)>, int),
                    Error,
                >(Error::UnclosedMap));
                assert(spec_parse(input@, pos as int) == Err::<(Node, int), Error>(
                    Error::UnclosedMap,
                ));
            }
            return Err(Error::UnclosedMap);
        }
        let b = input[cur];
        if b == 101 {
            let end = cur + 1;
            proof {
                assert(spec_parse_pairs(input@, cur as int) == Ok::<(Seq<(Node, Node)>, int), Error>(
                    (Seq::<(Node, Node)>::empty(), 1),
                ));
                assert(pair_views_of(pairs@) + Seq::<(Node, Node)>::empty() =~= pair_views_of(
                    pairs@,
                ));
                assert(spec_parse_pairs(input@, start) == Ok::<(Seq<(Node, Node)>, int), Error>(
                    (pair_views_of(pairs@), end - start),
                ));
            }
            if !keys_sorted(&pairs) {
                proof {
                    assert(spec_parse(input@, pos as int) == Err::<(Node, int), Error>(
                        Error::UnsortedKeys,
                    ));
                }
                return Err(Error::UnsortedKeys);
            }
            proof {
                assert(spec_parse(input@, pos as int) == Ok::<(Node, int), Error>(
                    (Node::Dict(pair_views_of(pairs@)), end - pos as int),
                ));
                lemma_parse_sound(input@, pos as int);
            }
            let raw = vstd::slice::slice_to_vec(vstd::slice::slice_subrange(input, pos, end));
            let t = Type::Dict(pairs, raw);
            assert(node_of(t) == Node::Dict(pair_views_of(t->Dict_0@)));
            return Ok((t, end));
        }
        let starter = (48 <= b && b <= 57) || b == 105 || b == 108 || b == 100;
        if !starter {
            proof {
                assert(spec_parse_pairs(input@, cur as int) == Err::<
                    (Seq<(Node, Node)>, int),
                    Error,
                >(Error::UnclosedMap));
                assert(spec_parse(input@, pos as int) == Err::<(Node, int), Error>(
                    Error::UnclosedMap,
                ));
            }
            return Err(Error::UnclosedMap);
        }
        let sub = parse_value(input, cur);
        match sub {
            Err(e) => {
                proof {
                    assert(spec_parse_pairs(input@, cur as int) == Err::<
                        (Seq<(Node, Node)>, int),
                        Error,
                    >(e));
                    assert(spec_parse(input@, pos as int) == Err::<(Node, int), Error>(e));
                }
                return Err(e);
            },
            Ok((kt, kend)) => {
                let key_is_string = matches!(kt, Type::String(_, _));
                if !key_is_string {
                    proof {
                        assert(!(node_of(kt) is ByteString));
                        assert(spec_parse_pairs(input@, cur as int) == Err::<
                            (Seq<(Node, Node)>, int),
                            Error,
                        >(Error::ExpectedString));
                        assert(spec_parse(input@, pos as int) == Err::<(Node, int), Error>(
                            Error::ExpectedString,
                        ));
                    }
                    return Err(Error::ExpectedString);
                }
                if kend >= input.len() {
                    proof {
                        assert(spec_parse(input@, kend as int) == Err::<(Node, int), Error>(
                            Error::NotEnoughBytes,
                        ));
                        assert(spec_parse_pairs(input@, cur as int) == Err::<
                            (Seq<(Node, Node)>, int),
                            Error,
                        >(Error::NotEnoughBytes));
                        assert(spec_parse(input@, pos as int) == Err::<(Node, int), Error>(
                            Error::NotEnoughBytes,
                        ));
                    }
                    return Err(Error::NotEnoughBytes);
                }
                let sub2 = parse_value(input, kend);
                match sub2 {
                    Err(e) => {
                        proof {
                            assert(spec_parse_pairs(input@, cur as int) == Err::<
                                (Seq<(Node, Node)>, int),
                                Error,
                            >(e));
                            assert(spec_parse(input@, pos as int) == Err::<(Node, int), Error>(e));
                        }
                        return Err(e);
                    },
                    Ok((vt, vend)) => {
                        let ghost kn = node_of(kt);
                        let ghost vn = node_of(vt);
                        let ghost k1 = kend - cur as int;
                        let ghost k2 = vend - kend as int;
                        proof {
                            let s = input@;
                            let oldviews = pair_views_of(pairs@);
                            let newviews = pair_views_of(pairs@.push((kt, vt)));
                            assert(newviews =~= oldviews + seq![(kn, vn)]);
                            assert(spec_parse_pairs(s, cur as int) == (match spec_parse_pairs(
                                s,
                                vend as int,
                            ) {
                                Ok((ps, k3)) => Ok::<(Seq<(Node, Node)>, int), Error>(
                                    (seq![(kn, vn)] + ps, k1 + k2 + k3),
                                ),
                                Err(e) => Err::<(Seq<(Node, Node)>, int), Error>(e),
                            }));
                            match spec_parse_pairs(s, vend as int) {
                                Ok((ps, k3)) => {
                                    assert((oldviews + (seq![(kn, vn)] + ps)) =~= (newviews + ps));
                                },
                                Err(_) => {},
                            }
                        }
                        pairs.push((kt, vt));
                        cur = vend;
                    },
                }
            },
        }
    }
}

/// Byte-lexicographic comparison from position `i` on.
fn lex_less_from(a: &Vec<u8>, b: &Vec<u8>, i: usize) -> (r: bool)
    requires
        i <= a@.len(),
        i <= b@.len(),
    ensures
        r == lex_lt(a@.skip(i as int), b@.skip(i as int)),
    decreases a@.len() - i,
{
    if i >= b.len() {
        assert(b@.skip(i as int).len() == 0);
        return false;
    }
    if i >= a.len() {
        assert(a@.skip(i as int).len() == 0);
        assert(b@.skip(i as int).len() > 0);
        return true;
    }
    let x = a[i];
    let y = b[i];
    assert(a@.skip(i as int)[0] == x);
    assert(b@.skip(i as int)[0] == y);
    if x < y {
        true
    } else if x > y {
        false
    } else {
        proof {
            assert(a@.skip(i as int).drop_first() =~= a@.skip(i as int + 1));
            assert(b@.skip(i as int).drop_first() =~= b@.skip(i as int + 1));
        }
        lex_less_from(a, b, i + 1)
    }
}

/// Strict byte-lexicographic order on two byte vectors.
pub fn lex_less(a: &Vec<u8>, b: &Vec<u8>) -> (r: bool)
    ensures
        r == lex_lt(a@, b@),
{
    proof {
        assert(a@.skip(0) =~= a@);
        assert(b@.skip(0) =~= b@);
    }
    lex_less_from(a, b, 0)
}

/// Whether the keys of decoded dictionary entries are byte strings in
/// strictly increasing order.
fn keys_sorted(pairs: &Vec<(Type, Type)>) -> (r: bool)
    requires
        forall|i: int| 0 <= i < pairs@.len() ==> (#[trigger] pairs@[i]).0 is String,
    ensures
        r == sorted_keys(pair_views_of(pairs@)),
{
    let ghost pviews = pair_views_of(pairs@);
    let mut idx: usize = 1;
    while idx < pairs.len()
        invariant
            1 <= idx,
            idx <= pairs@.len() || pairs@.len() == 0,
            forall|i: int| 0 <= i < pairs@.len() ==> (#[trigger] pairs@[i]).0 is String,
            pviews == pair_views_of(pairs@),
            forall|i: int|
                0 <= i && i + 1 < idx && i + 1 < pairs@.len() ==> lex_lt(
                    key_bytes(pviews[i].0),
                    key_bytes(#[trigger] pviews[i + 1].0),
                ),
        decreases pairs@.len() - idx,
    {
        let prev = match &pairs[idx - 1].0 {
            Type::String(s, _) => s,
            _ => {
                proof {
                    assert(false);
                }
                return false;
            },
        };
        let here = match &pairs[idx].0 {
            Type::String(s, _) => s,
            _ => {
                proof {
                    assert(false);
                }
                return false;
            },
        };
        assert(key_bytes(pviews[idx - 1].0) == prev@);
        assert(key_bytes(pviews[idx as int].0) == here@);
        if !lex_less(prev, here) {
            proof {
                assert(!sorted_keys(pviews)) by {
                    if sorted_keys(pviews) {
                        assert(lex_lt(
                            key_bytes(pviews[idx - 1].0),
                            key_bytes(pviews[(idx - 1) + 1].0),
                        ));
                    }
                }
            }
            return false;
        }
        idx = idx + 1;
    }
    proof {
        assert(sorted_keys(pviews)) by {
            assert(forall|i: int|
                0 <= i && i + 1 < pviews.len() ==> lex_lt(
                    key_bytes(pviews[i].0),
                    key_bytes(#[trigger] pviews[i + 1].0),
                ));
        }
    }
    true
}

/// Decodes one bencode value starting at `pos`, per [`spec_parse`].
pub fn parse_value(input: &[u8], pos: usize) -> (r: Result<(Type, usize), Error>)
    requires
        pos <= input@.len(),
    ensures
        parse_post(input@, pos as int, r),
    decreases input@.len() - pos, 1int,
{
    if input.len() - pos < 2 {
        return Err(Error::NotEnoughBytes);
    }
    let c = input[pos];
    if 48 <= c && c <= 57 {
        parse_byte_string(input, pos)
    } else if c == 105 {
        parse_integer(input, pos)
    } else if c == 108 {
        parse_list(input, pos)
    } else if c == 100 {
        parse_dict(input, pos)
    } else {
        Err(Error::NotEnoughBytes)
    }
}

/// Decodes the bencode value at the start of `bytes`.  Bytes after the first
/// complete value are ignored, as they are when a value is read out of a
/// larger document.
pub fn bedecode(bytes: &[u8]) -> (r: Result<Type, Error>)
    ensures
        match r {
            Ok(t) => spec_parse(bytes@, 0) matches Ok((n, k)) && n == node_of(t) && raw_of(t)
                == bytes@.subrange(0, k) && raws_ok(t),
            Err(e) => spec_parse(bytes@, 0) == Err::<(Node, int), Error>(e),
        },
{
    match parse_value(bytes, 0) {
        Ok((t, _)) => Ok(t),
        Err(e) => Err(e),
    }
}

impl Type {
    /// The entries and raw slice of a dictionary value.
    pub fn try_into_dict(&self) -> (r: Result<(&Vec<(Type, Type)>, &Vec<u8>), Error>)
        ensures
            match r {
                Ok((m, raw)) => *self == Type::Dict(*m, *raw),
                Err(e) => !(*self is Dict) && e == Error::ExpectedMap,
            },
    {
        match self {
            Type::Dict(map, raw) => Ok((map, raw)),
            _ => Err(Error::ExpectedMap),
        }
    }

    /// The textual digits and raw slice of an integer value.
    pub fn try_into_int(&self) -> (r: Result<(&Vec<u8>, &Vec<u8>), Error>)
        ensures
            match r {
                Ok((digits, raw)) => *self == Type::Integer(*digits, *raw),
                Err(e) => !(*self is Integer) && e == Error::ExpectedInteger,
            },
    {
        match self {
            Type::Integer(digits, raw) => Ok((digits, raw)),
            _ => Err(Error::ExpectedInteger),
        }
    }

    /// The elements and raw slice of a list value.
    pub fn try_into_list(&self) -> (r: Result<(&Vec<Type>, &Vec<u8>), Error>)
        ensures
            match r {
                Ok((list, raw)) => *self == Type::List(*list, *raw),
                Err(e) => !(*self is List) && e == Error::ExpectedList,
            },
    {
        match self {
            Type::List(list, raw) => Ok((list, raw)),
            _ => Err(Error::ExpectedList),
        }
    }

    /// The contents and raw slice of a byte-string value.
    pub fn try_into_byte_string(&self) -> (r: Result<(&Vec<u8>, &Vec<u8>), Error>)
        ensures
            match r {
                Ok((string, raw)) => *self == Type::String(*string, *raw),
                Err(e) => !(*self is String) && e == Error::ExpectedString,
            },
    {
        match self {
            Type::String(string, raw) => Ok((string, raw)),
            _ => Err(Error::ExpectedString),
        }
    }
}

proof fn lemma_encoded_seq_push(ns: Seq<Node>, n: Node)
    ensures
        encoded_seq(ns.push(n)) == encoded_seq(ns) + encoded(n),
    decreases ns.len(),
{
    if ns.len() == 0 {
        assert(ns.push(n)[0] == n);
        assert(ns.push(n).drop_first() =~= Seq::<Node>::empty());
        assert(ns =~= Seq::<Node>::empty());
        assert(encoded_seq(ns.push(n)) == encoded(n) + encoded_seq(ns));
        assert(encoded(n) + encoded_seq(ns) =~= encoded_seq(ns) + encoded(n));
    } else {
        assert(ns.push(n)[0] == ns[0]);
        assert(ns.push(n).drop_first() =~= ns.drop_first().push(n));
        lemma_encoded_seq_push(ns.drop_first(), n);
        assert(encoded_seq(ns.push(n)) == encoded(ns[0]) + (encoded_seq(ns.drop_first()) + encoded(
            n,
        )));
        assert(encoded(ns[0]) + (encoded_seq(ns.drop_first()) + encoded(n)) =~= (encoded(ns[0])
            + encoded_seq(ns.drop_first())) + encoded(n));
        assert(encoded_seq(ns) == encoded(ns[0]) + encoded_seq(ns.drop_first()));
    }
}

proof fn lemma_encoded_pairs_push(ps: Seq<(Node, Node)>, p: (Node, Node))
    ensures
        encoded_pairs(ps.push(p)) == encoded_pairs(ps) + encoded(p.0) + encoded(p.1),
    decreases ps.len(),
{
    if ps.len() == 0 {
        assert(ps.push(p)[0] == p);
        assert(ps.push(p).drop_first() =~= Seq::<(Node, Node)>::empty());
        assert(ps =~= Seq::<(Node, Node)>::empty());
        assert(encoded_pairs(ps.push(p)) == encoded(p.0) + encoded(p.1) + encoded_pairs(ps));
        assert(encoded(p.0) + encoded(p.1) + encoded_pairs(ps) =~= encoded_pairs(ps) + encoded(p.0)
            + encoded(p.1));
    } else {
        assert(ps.push(p)[0] == ps[0]);
        assert(ps.push(p).drop_first() =~= ps.drop_first().push(p));
        lemma_encoded_pairs_push(ps.drop_first(), p);
        let e0 = encoded(ps[0].0);
        let e1 = encoded(ps[0].1);
        let rest = encoded_pairs(ps.drop_first());
        assert(encoded_pairs(ps.push(p)) == e0 + e1 + (rest + encoded(p.0) + encoded(p.1)));
        assert(e0 + e1 + (rest + encoded(p.0) + encoded(p.1)) =~= ((e0 + e1 + rest) + encoded(p.0))
            + encoded(p.1));
        assert(encoded_pairs(ps) == e0 + e1 + rest);
    }
}

/// Appends the decimal digits of `n` to `out`.
fn push_digits(out: &mut Vec<u8>, n: usize)
    ensures
        final(out)@ == old(out)@ + dec_digits(n as nat),
    decreases n,
{
    if n < 10 {
        out.push(48 + n as u8);
        assert(out@ =~= old(out)@ + dec_digits(n as nat));
    } else {
        push_digits(out, n / 10);
        out.push(48 + (n % 10) as u8);
        assert(out@ =~= old(out)@ + dec_digits(n as nat));
    }
}

/// Serializes a value in canonical bencode form.  The raw slices stored in
/// the tree play no part: the output is computed from the values alone.
#[verifier::loop_isolation(false)]
pub fn encode(t: &Type) -> (r: Vec<u8>)
    ensures
        r@ == encoded(node_of(*t)),
    decreases *t,
{
    match t {
        Type::String(s, _) => {
            let mut out: Vec<u8> = Vec::new();
            push_digits(&mut out, s.len());
            out.push(58);
            out.extend_from_slice(s.as_slice());
            assert(out@ =~= encoded(node_of(*t)));
            out
        },
        Type::Integer(d, _) => {
            let mut out: Vec<u8> = Vec::new();
            out.push(105);
            out.extend_from_slice(d.as_slice());
            out.push(101);
            assert(out@ =~= encoded(node_of(*t)));
            out
        },
        Type::List(items, _) => {
            let mut out: Vec<u8> = Vec::new();
            out.push(108);
            let mut i: usize = 0;
            while i < items.len()
                invariant
                    i <= items@.len(),
                    out@ == seq![108u8] + encoded_seq(views_of(items@.subrange(0, i as int))),
                decreases items@.len() - i,
            {
                proof {
                    assert(decreases_to!(*t => t->List_0));
                    assert(decreases_to!(t->List_0 => t->List_0@));
                    assert(decreases_to!(t->List_0@ => t->List_0@[i as int]));
                }
                let piece = encode(&items[i]);
                out.extend_from_slice(piece.as_slice());
                proof {
                    let pre = views_of(items@.subrange(0, i as int));
                    let now = views_of(items@.subrange(0, i as int + 1));
                    assert(now =~= pre.push(node_of(items@[i as int])));
                    lemma_encoded_seq_push(pre, node_of(items@[i as int]));
                    assert(out@ =~= seq![108u8] + encoded_seq(now));
                }
                i = i + 1;
            }
            out.push(101);
            proof {
                assert(items@.subrange(0, items@.len() as int) =~= items@);
                assert(out@ =~= encoded(node_of(*t)));
            }
            out
        },
        Type::Dict(pairs, _) => {
            let mut out: Vec<u8> = Vec::new();
            out.push(100);
            let mut i: usize = 0;
            while i < pairs.len()
                invariant
                    i <= pairs@.len(),
                    out@ == seq![100u8] + encoded_pairs(pair_views_of(pairs@.subrange(0, i as int))),
                decreases pairs@.len() - i,
            {
                proof {
                    assert(decreases_to!(*t => t->Dict_0));
                    assert(decreases_to!(t->Dict_0 => t->Dict_0@));
                    assert(decreases_to!(t->Dict_0@ => t->Dict_0@[i as int]));
                    assert(decreases_to!(t->Dict_0@[i as int] => t->Dict_0@[i as int].0));
                    assert(decreases_to!(t->Dict_0@[i as int] => t->Dict_0@[i as int].1));
                }
                let kpiece = encode(&pairs[i].0);
                out.extend_from_slice(kpiece.as_slice());
                let vpiece = encode(&pairs[i].1);
                out.extend_from_slice(vpiece.as_slice());
                proof {
                    let pre = pair_views_of(pairs@.subrange(0, i as int));
                    let now = pair_views_of(pairs@.subrange(0, i as int + 1));
                    let p = (node_of(pairs@[i as int].0), node_of(pairs@[i as int].1));
                    assert(now =~= pre.push(p));
                    lemma_encoded_pairs_push(pre, p);
                    assert(out@ =~= seq![100u8] + encoded_pairs(now));
                }
                i = i + 1;
            }
            out.push(101);
            proof {
                assert(pairs@.subrange(0, pairs@.len() as int) =~= pairs@);
                assert(out@ =~= encoded(node_of(*t)));
            }
            out
        },
    }
}

/// Completeness of the parsing specification: the canonical encoding of a
/// canonical value, placed anywhere in a document, decodes to exactly that
/// value, consuming exactly the encoding.
pub proof fn lemma_parse_complete(s: Seq<u8>, pos: int, n: Node)
    requires
        canonical(n),
        0 <= pos,
        pos + encoded(n).len() <= s.len(),
        s.subrange(pos, pos + encoded(n).len()) == encoded(n),
    ensures
        spec_parse(s, pos) == Ok::<(Node, int), Error>((n, encoded(n).len() as int)),
    decreases n,
{
    let e = encoded(n);
    lemma_encoded_shape(n);
    assert(forall|i: int| 0 <= i < e.len() ==> s[pos + i] == #[trigger] e[i]) by {
        assert(forall|i: int|
            0 <= i < e.len() ==> s[pos + i] == #[trigger] s.subrange(pos, pos + e.len())[i]);
    }
    match n {
        Node::ByteString(str) => {
            let digs = dec_digits(str.len());
            lemma_dec_digits_props(str.len());
            let dl = digs.len() as int;
            assert(forall|i: int| 0 <= i < dl ==> e[i] == #[trigger] digs[i]);
            assert(e[dl] == 58);
            assert(forall|i: int| 0 <= i < str.len() ==> e[dl + 1 + i] == #[trigger] str[i]);
            assert(s[pos] == digs[0]);
            assert(forall|i: int| pos <= i < pos + dl ==> is_ascii_digit(#[trigger] s[i])) by {
                assert(forall|i: int| pos <= i < pos + dl ==> s[i] == digs[i - pos]);
            }
            lemma_digits_end_exact(s, pos, pos + dl);
            let dend = pos + dl;
            assert(s[dend] == 58);
            if s[pos] == 48 {
                assert(digs[0] == 48);
                assert(str.len() == 0);
                assert(dl == 1);
            }
            assert(s.subrange(pos, dend) =~= digs);
            assert(digits_val(s.subrange(pos, dend)) == str.len());
            assert(dend + 1 + str.len() <= s.len());
            assert(s.subrange(dend + 1, dend + 1 + str.len() as int) =~= str);
            assert(spec_parse(s, pos) == Ok::<(Node, int), Error>((n, e.len() as int)));
        },
        Node::Integer(d) => {
            assert(e[0] == 105);
            assert(forall|i: int| 0 <= i < d.len() ==> e[1 + i] == #[trigger] d[i]);
            assert(e[1 + d.len() as int] == 101);
            let q = pos + 1;
            assert(s[q] == d[0]);
            if d[0] == 45 {
                let dstart = q + 1;
                assert(s[dstart] == d[1]);
                assert(d.skip(1)[0] == d[1]);
                assert(is_ascii_digit(d[1]));
                assert(forall|i: int| dstart <= i < q + d.len() ==> is_ascii_digit(
                    #[trigger] s[i],
                )) by {
                    assert(forall|i: int|
                        dstart <= i < q + d.len() ==> s[i] == d.skip(1)[i - dstart]);
                }
                assert(s[q + d.len() as int] == 101);
                lemma_digits_end_exact(s, dstart, q + d.len() as int);
                let dend = q + d.len() as int;
                assert(s[dstart] != 48);
                assert(s.subrange(q, dend) =~= d);
                assert(spec_parse(s, pos) == Ok::<(Node, int), Error>((n, e.len() as int)));
            } else {
                let dstart = q;
                assert(is_ascii_digit(d[0]));
                assert(forall|i: int| dstart <= i < q + d.len() ==> is_ascii_digit(
                    #[trigger] s[i],
                )) by {
                    assert(forall|i: int| dstart <= i < q + d.len() ==> s[i] == d[i - q]);
                }
                assert(s[q + d.len() as int] == 101);
                lemma_digits_end_exact(s, dstart, q + d.len() as int);
                let dend = q + d.len() as int;
                if s[dstart] == 48 {
                    assert(d[0] == 48);
                    assert(d.len() == 1);
                }
                assert(s.subrange(q, dend) =~= d);
                assert(spec_parse(s, pos) == Ok::<(Node, int), Error>((n, e.len() as int)));
            }
        },
        Node::List(ns) => {
            let inner = encoded_seq(ns);
            assert(e =~= seq![108u8] + inner + seq![101u8]);
            assert(e[0] == 108);
            assert(s[pos] == 108);
            assert(forall|i: int| 0 <= i < inner.len() ==> e[1 + i] == #[trigger] inner[i]);
            assert(e[1 + inner.len() as int] == 101);
            assert(s.subrange(pos + 1, pos + 1 + inner.len()) =~= inner);
            assert(s[pos + 1 + inner.len() as int] == 101);
            lemma_items_complete(s, pos + 1, ns);
            assert(spec_parse(s, pos) == Ok::<(Node, int), Error>((n, e.len() as int)));
        },
        Node::Dict(ps) => {
            let inner = encoded_pairs(ps);
            assert(e =~= seq![100u8] + inner + seq![101u8]);
            assert(e[0] == 100);
            assert(s[pos] == 100);
            assert(forall|i: int| 0 <= i < inner.len() ==> e[1 + i] == #[trigger] inner[i]);
            assert(e[1 + inner.len() as int] == 101);
            assert(s.subrange(pos + 1, pos + 1 + inner.len()) =~= inner);
            assert(s[pos + 1 + inner.len() as int] == 101);
            lemma_pairs_complete(s, pos + 1, ps);
            assert(sorted_keys(ps));
            assert(spec_parse(s, pos) == Ok::<(Node, int), Error>((n, e.len() as int)));
        },
    }
}

proof fn lemma_items_complete(s: Seq<u8>, pos: int, ns: Seq<Node>)
    requires
        forall|i: int| 0 <= i < ns.len() ==> canonical(#[trigger] ns[i]),
        0 <= pos,
        pos + encoded_seq(ns).len() + 1 <= s.len(),
        s.subrange(pos, pos + encoded_seq(ns).len()) == encoded_seq(ns),
        s[pos + encoded_seq(ns).len()] == 101,
    ensures
        spec_parse_items(s, pos) == Ok::<(Seq<Node>, int), Error>(
            (ns, encoded_seq(ns).len() as int + 1),
        ),
    decreases ns,
{
    let w = encoded_seq(ns);
    if ns.len() == 0 {
        assert(w =~= Seq::<u8>::empty());
        assert(s[pos] == 101);
        assert(ns =~= Seq::<Node>::empty());
    } else {
        let n0 = ns[0];
        let rest = ns.drop_first();
        let e0 = encoded(n0);
        let wr = encoded_seq(rest);
        assert(w == e0 + wr);
        lemma_encoded_shape(n0);
        assert(forall|i: int| 0 <= i < w.len() ==> s[pos + i] == #[trigger] w[i]) by {
            assert(forall|i: int|
                0 <= i < w.len() ==> s[pos + i] == #[trigger] s.subrange(pos, pos + w.len())[i]);
        }
        assert(forall|i: int| 0 <= i < e0.len() ==> w[i] == #[trigger] e0[i]);
        assert(s[pos] == e0[0]);
        assert(is_starter(s[pos]) && s[pos] != 101);
        assert(s.subrange(pos, pos + e0.len()) =~= e0);
        lemma_parse_complete(s, pos, n0);
        let k = e0.len() as int;
        assert(forall|i: int| 0 <= i < wr.len() ==> w[k + i] == #[trigger] wr[i]);
        assert(s.subrange(pos + k, pos + k + wr.len()) =~= wr);
        assert(s[pos + k + wr.len() as int] == s[pos + w.len() as int]);
        lemma_items_complete(s, pos + k, rest);
        assert(seq![n0] + rest =~= ns);
        assert(spec_parse_items(s, pos) == Ok::<(Seq<Node>, int), Error>((ns, w.len() as int + 1)));
    }
}

proof fn lemma_pairs_complete(s: Seq<u8>, pos: int, ps: Seq<(Node, Node)>)
    requires
        forall|i: int|
            0 <= i < ps.len() ==> (#[trigger] ps[i].0) is ByteString && canonical(ps[i].0)
                && canonical(ps[i].1),
        0 <= pos,
        pos + encoded_pairs(ps).len() + 1 <= s.len(),
        s.subrange(pos, pos + encoded_pairs(ps).len()) == encoded_pairs(ps),
        s[pos + encoded_pairs(ps).len()] == 101,
    ensures
        spec_parse_pairs(s, pos) == Ok::<(Seq<(Node, Node)>, int), Error>(
            (ps, encoded_pairs(ps).len() as int + 1),
        ),
    decreases ps,
{
    let w = encoded_pairs(ps);
    if ps.len() == 0 {
        assert(w =~= Seq::<u8>::empty());
        assert(s[pos] == 101);
        assert(ps =~= Seq::<(Node, Node)>::empty());
    } else {
        let k0 = ps[0].0;
        let v0 = ps[0].1;
        let rest = ps.drop_first();
        let ek = encoded(k0);
        let ev = encoded(v0);
        let wr = encoded_pairs(rest);
        assert(w == ek + ev + wr);
        lemma_encoded_shape(k0);
        lemma_encoded_shape(v0);
        assert(forall|i: int| 0 <= i < w.len() ==> s[pos + i] == #[trigger] w[i]) by {
            assert(forall|i: int|
                0 <= i < w.len() ==> s[pos + i] == #[trigger] s.subrange(pos, pos + w.len())[i]);
        }
        assert(forall|i: int| 0 <= i < ek.len() ==> w[i] == #[trigger] ek[i]);
        assert(forall|i: int| 0 <= i < ev.len() ==> w[ek.len() + i] == #[trigger] ev[i]);
        assert(s[pos] == ek[0]);
        assert(is_starter(s[pos]) && s[pos] != 101);
        assert(s.subrange(pos, pos + ek.len()) =~= ek);
        lemma_parse_complete(s, pos, k0);
        let ka = ek.len() as int;
        let kb = ka + ev.len() as int;
        assert(s.subrange(pos + ka, pos + kb) =~= ev);
        lemma_parse_complete(s, pos + ka, v0);
        assert(forall|i: int| 0 <= i < wr.len() ==> w[kb + i] == #[trigger] wr[i]);
        assert(s.subrange(pos + kb, pos + kb + wr.len()) =~= wr);
        assert(s[pos + kb + wr.len() as int] == s[pos + w.len() as int]);
        lemma_pairs_complete(s, pos + kb, rest);
        assert(seq![(k0, v0)] + rest =~= ps);
        assert(spec_parse_pairs(s, pos) == Ok::<(Seq<(Node, Node)>, int), Error>(
            (ps, w.len() as int + 1),
        ));
    }
}

/// Round trip: decoding the canonical encoding of any canonical value yields
/// exactly that value and consumes the whole encoding.  Together with the
/// decoder's postcondition this says that re-encoding and re-decoding any
/// decoded value gives the value back.
pub proof fn lemma_round_trip(n: Node)
    requires
        canonical(n),
    ensures
        spec_parse(encoded(n), 0) == Ok::<(Node, int), Error>((n, encoded(n).len() as int)),
{
    let e = encoded(n);
    assert(e.subrange(0, e.len() as int) =~= e);
    lemma_parse_complete(e, 0, n);
}

/// Round trip for decoded documents: any value the decoder produced is
/// canonical, its re-encoding is exactly the bytes it was decoded from, and
/// decoding that re-encoding yields the value back.
pub proof fn lemma_decode_then_reencode(s: Seq<u8>, n: Node, k: int)
    requires
        spec_parse(s, 0) == Ok::<(Node, int), Error>((n, k)),
    ensures
        canonical(n),
        encoded(n) == s.subrange(0, k),
        spec_parse(encoded(n), 0) == Ok::<(Node, int), Error>((n, encoded(n).len() as int)),
{
    lemma_parse_sound(s, 0);
    lemma_round_trip(n);
}

/// Raw-slice fidelity as a statement about whole trees: in a tree the decoder
/// produced, the raw slice of the root equals the canonical re-encoding of
/// the root's value.
pub proof fn lemma_raw_is_reencoding(t: Type)
    requires
        raws_ok(t),
    ensures
        raw_of(t) == encoded(node_of(t)),
{
}

proof fn lemma_digits_val_take_mono(d: Seq<u8>, i: int)
    requires
        all_digits(d),
        0 <= i <= d.len(),
    ensures
        digits_val(d.take(i)) <= digits_val(d),
        digits_val(d.take(i)) >= 0,
    decreases d.len() - i,
{
    assert(all_digits(d.take(i))) by {
        assert(forall|j: int| 0 <= j < i ==> d.take(i)[j] == d[j]);
    }
    lemma_digits_val_bounds(d.take(i));
    if i == d.len() {
        assert(d.take(i) =~= d);
    } else {
        lemma_digits_val_take_mono(d, i + 1);
        assert(d.take(i + 1).drop_last() =~= d.take(i));
        assert(d.take(i + 1).last() == d[i]);
        assert(digits_val(d.take(i + 1)) == digits_val(d.take(i)) * 10 + (d[i] - 48));
    }
}

/// The value of a digit string is never negative.
pub broadcast proof fn lemma_digits_val_nonneg(d: Seq<u8>)
    ensures
        all_digits(d) ==> #[trigger] digits_val(d) >= 0,
{
    if all_digits(d) {
        lemma_digits_val_bounds(d);
    }
}

/// The numeric value of a textual integer: the digits' value, negated after
/// a leading minus sign.
pub open spec fn int_text_val(d: Seq<u8>) -> int {
    if d.len() >= 1 && d[0] == 45 {
        -digits_val(d.skip(1))
    } else {
        digits_val(d)
    }
}

/// An optional minus sign followed by at least one digit.
pub open spec fn is_int_text(d: Seq<u8>) -> bool {
    if d.len() >= 1 && d[0] == 45 {
        d.len() >= 2 && all_digits(d.skip(1))
    } else {
        d.len() >= 1 && all_digits(d)
    }
}

/// Reads an unsigned decimal number, exactly when `d` is all digits and the
/// value fits in a `u64`.
pub fn parse_u64_digits(d: &Vec<u8>) -> (r: Option<u64>)
    ensures
        if all_digits(d@) && d@.len() >= 1 && digits_val(d@) <= u64::MAX {
            r == Some(digits_val(d@) as u64)
        } else {
            r is None
        },
{
    if d.len() == 0 {
        return None;
    }
    let mut acc: u64 = 0;
    let mut i: usize = 0;
    while i < d.len()
        invariant
            0 <= i <= d@.len(),
            all_digits(d@.take(i as int)),
            digits_val(d@.take(i as int)) == acc,
        decreases d@.len() - i,
    {
        let b = d[i];
        if b < 48 || b > 57 {
            assert(!all_digits(d@));
            return None;
        }
        let dv = (b - 48) as u64;
        let ghost pre = d@.take(i as int);
        let ghost cur = d@.take(i as int + 1);
        proof {
            assert(cur.drop_last() =~= pre);
            assert(cur.last() == d@[i as int]);
            assert(digits_val(cur) == digits_val(pre) * 10 + (b - 48));
            assert(all_digits(cur)) by {
                assert(forall|j: int| 0 <= j < cur.len() ==> cur[j] == d@[j]);
            }
        }
        let next = match acc.checked_mul(10) {
            Some(x) => x.checked_add(dv),
            None => None,
        };
        match next {
            Some(x) => {
                acc = x;
            },
            None => {
                proof {
                    if all_digits(d@) {
                        lemma_digits_val_take_mono(d@, i as int + 1);
                    }
                }
                return None;
            },
        }
        i = i + 1;
    }
    proof {
        assert(d@.take(d@.len() as int) =~= d@);
    }
    Some(acc)
}

/// Reads an unsigned decimal number, exactly when `d` is all digits and the
/// value fits in a `u32`.
pub fn parse_u32_digits(d: &Vec<u8>) -> (r: Option<u32>)
    ensures
        if all_digits(d@) && d@.len() >= 1 && digits_val(d@) <= u32::MAX {
            r == Some(digits_val(d@) as u32)
        } else {
            r is None
        },
{
    proof {
        if all_digits(d@) {
            lemma_digits_val_bounds(d@);
        }
    }
    match parse_u64_digits(d) {
        Some(v) => {
            if v <= 0xffff_ffff {
                Some(v as u32)
            } else {
                proof {
                    if all_digits(d@) && digits_val(d@) <= u32::MAX {
                        assert(digits_val(d@) <= u64::MAX);
                    }
                }
                None
            }
        },
        None => None,
    }
}

/// Reads a signed decimal number, exactly when `d` is an integer text whose
/// value fits in an `i64`.
pub fn parse_i64_text(d: &Vec<u8>) -> (r: Option<i64>)
    ensures
        if is_int_text(d@) && i64::MIN <= int_text_val(d@) <= i64::MAX {
            r == Some(int_text_val(d@) as i64)
        } else {
            r is None
        },
{
    if d.len() == 0 {
        return None;
    }
    proof {
        if all_digits(d@) {
            lemma_digits_val_bounds(d@);
        }
        if d@.len() >= 2 && all_digits(d@.skip(1)) {
            lemma_digits_val_bounds(d@.skip(1));
        }
    }
    if d[0] == 45 {
        let rest = vstd::slice::slice_to_vec(vstd::slice::slice_subrange(d.as_slice(), 1, d.len()));
        assert(rest@ =~= d@.skip(1));
        match parse_u64_digits(&rest) {
            Some(v) => {
                if v <= 0x8000_0000_0000_0000 {
                    proof {
                        lemma_digits_val_bounds(d@.skip(1));
                    }
                    if v == 0x8000_0000_0000_0000 {
                        Some(i64::MIN)
                    } else {
                        Some(-(v as i64))
                    }
                } else {
                    None
                }
            },
            None => {
                proof {
                    if is_int_text(d@) && i64::MIN <= int_text_val(d@) {
                        assert(digits_val(d@.skip(1)) <= 0x8000_0000_0000_0000);
                    }
                }
                None
            },
        }
    } else {
        match parse_u64_digits(d) {
            Some(v) => {
                if v <= 0x7fff_ffff_ffff_ffff {
                    Some(v as i64)
                } else {
                    None
                }
            },
            None => None,
        }
    }
}

/// Whether two byte vectors hold the same bytes.
pub fn bytes_eq(a: &Vec<u8>, b: &Vec<u8>) -> (r: bool)
    ensures
        r == (a@ == b@),
{
    if a.len() != b.len() {
        return false;
    }
    let mut i: usize = 0;
    while i < a.len()
        invariant
            i <= a@.len(),
            a@.len() == b@.len(),
            forall|j: int| 0 <= j < i ==> a@[j] == b@[j],
        decreases a@.len() - i,
    {
        if a[i] != b[i] {
            return false;
        }
        i = i + 1;
    }
    assert(a@ =~= b@);
    true
}

/// The value stored under a byte-string key, first match wins.
pub open spec fn dict_get(ps: Seq<(Node, Node)>, key: Seq<u8>) -> Option<Node>
    decreases ps.len(),
{
    if ps.len() == 0 {
        None
    } else if ps[0].0 matches Node::ByteString(s) && s == key {
        Some(ps[0].1)
    } else {
        dict_get(ps.drop_first(), key)
    }
}

/// Looks a key up among decoded dictionary entries.
pub fn dict_find<'a>(pairs: &'a Vec<(Type, Type)>, key: &Vec<u8>) -> (r: Option<&'a Type>)
    ensures
        match r {
            Some(t) => dict_get(pair_views_of(pairs@), key@) == Some(node_of(*t)) && exists|i: int|
                0 <= i < pairs@.len() && *t == (#[trigger] pairs@[i]).1,
            None => dict_get(pair_views_of(pairs@), key@) is None,
        },
{
    let ghost pviews = pair_views_of(pairs@);
    proof {
        assert(pviews.skip(0) =~= pviews);
    }
    let mut i: usize = 0;
    while i < pairs.len()
        invariant
            i <= pairs@.len(),
            pviews == pair_views_of(pairs@),
            dict_get(pviews, key@) == dict_get(pviews.skip(i as int), key@),
        decreases pairs@.len() - i,
    {
        let ghost rem = pviews.skip(i as int);
        proof {
            assert(rem[0] == pviews[i as int]);
            assert(rem.drop_first() =~= pviews.skip(i as int + 1));
        }
        let hit = match &pairs[i].0 {
            Type::String(s, _) => bytes_eq(s, key),
            _ => false,
        };
        if hit {
            assert(pviews[i as int].0 matches Node::ByteString(s) && s == key@);
            return Some(&pairs[i].1);
        }
        i = i + 1;
    }
    proof {
        assert(pviews.skip(pairs@.len() as int).len() == 0);
    }
    None
}

/// A cursor over a byte slice that yields one decoded value at a time.
pub struct Iter<'a> {
    raw: &'a [u8],
    current: usize,
}

impl<'a> Iter<'a> {
    /// The bytes the cursor walks over.
    pub closed spec fn bytes(&self) -> Seq<u8> {
        self.raw@
    }

    /// The cursor's position.
    pub closed spec fn pos(&self) -> int {
        self.current as int
    }

    pub open spec fn wf(&self) -> bool {
        0 <= self.pos() <= self.bytes().len()
    }

    pub fn new(raw: &'a [u8]) -> (r: Iter<'a>)
        ensures
            r.bytes() == raw@,
            r.pos() == 0,
            r.wf(),
    {
        Iter { raw, current: 0 }
    }

    /// Decodes the next value.  Yields nothing when fewer than two bytes
    /// remain or the next byte cannot begin a value; on an error the cursor
    /// stays where it was.
    pub fn next(&mut self) -> (r: Option<Result<Type, Error>>)
        requires
            old(self).wf(),
        ensures
            final(self).bytes() == old(self).bytes(),
            final(self).wf(),
            match r {
                Option::None => final(self).pos() == old(self).pos() && (old(self).bytes().len()
                    - old(self).pos() < 2 || !is_starter(old(self).bytes()[old(self).pos()])),
                Option::Some(Result::Ok(t)) => parse_ok(
                    old(self).bytes(),
                    old(self).pos(),
                    t,
                    final(self).pos(),
                ),
                Option::Some(Result::Err(e)) => final(self).pos() == old(self).pos() && spec_parse(
                    old(self).bytes(),
                    old(self).pos(),
                ) == Err::<(Node, int), Error>(e),
            },
    {
        if self.raw.len() - self.current < 2 {
            return None;
        }
        let b = self.raw[self.current];
        let starter = (48 <= b && b <= 57) || b == 105 || b == 108 || b == 100;
        if !starter {
            return None;
        }
        match parse_value(self.raw, self.current) {
            Ok((t, end)) => {
                self.current = end;
                Some(Ok(t))
            },
            Err(e) => Some(Err(e)),
        }
    }
}

} // verus!
