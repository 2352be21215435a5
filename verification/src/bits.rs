//! Bit sets backed by `bit_vec::BitVec`: peers' piece bitfields, the local
//! file's bitfield, and per-piece block-arrival sets.

use vstd::prelude::*;

verus! {

/// Declares `bit_vec::BitVec` so that it can stand in signatures and
/// fields; values of it are reasoned about only through [`bits_of`].
#[verifier::external_type_specification]
#[verifier::external_body]
#[verifier::reject_recursive_types(B)]
pub struct ExBitVec<B>(bit_vec::BitVec<B>);

/// The bits held by a `bit_vec::BitVec`, in index order.
pub uninterp spec fn bits_of(v: bit_vec::BitVec) -> Seq<bool>;

/// Bit `k` (most significant first) of byte `b`.
pub open spec fn byte_bit(b: u8, k: int) -> bool {
    (b >> ((7 - k) as u8)) & 1 == 1
}

/// Relies on `bit_vec::BitVec::from_elem`: a vector of `nbits` bits, each
/// equal to `bit`.
#[verifier::external_body]
pub fn bits_from_elem(nbits: usize, bit: bool) -> (r: bit_vec::BitVec)
    ensures
        bits_of(r) == Seq::new(nbits as nat, |i: int| bit),
{
    bit_vec::BitVec::from_elem(nbits, bit)
}

/// Relies on `bit_vec::BitVec::from_bytes`: eight bits per byte, most
/// significant first.
#[verifier::external_body]
pub fn bits_from_bytes(bytes: &[u8]) -> (r: bit_vec::BitVec)
    ensures
        bits_of(r) == Seq::new(8 * bytes@.len(), |i: int| byte_bit(bytes@[i / 8], i % 8)),
{
    bit_vec::BitVec::from_bytes(bytes)
}

/// Relies on `bit_vec::BitVec::len`: the number of bits.
#[verifier::external_body]
pub fn bits_len(v: &bit_vec::BitVec) -> (r: usize)
    ensures
        r == bits_of(*v).len(),
{
    v.len()
}

/// Relies on `bit_vec::BitVec::get`: the bit at `i`, or nothing when `i` is
/// out of range.
#[verifier::external_body]
pub fn bits_get(v: &bit_vec::BitVec, i: usize) -> (r: Option<bool>)
    ensures
        r == (if i < bits_of(*v).len() {
            Some(bits_of(*v)[i as int])
        } else {
            None::<bool>
        }),
{
    v.get(i)
}

/// Relies on `bit_vec::BitVec::set`, which panics when `i` is out of range:
/// replaces the bit at `i`.
#[verifier::external_body]
pub fn bits_set(v: &mut bit_vec::BitVec, i: usize, x: bool)
    requires
        i < bits_of(*old(v)).len(),
    ensures
        bits_of(*final(v)) == bits_of(*old(v)).update(i as int, x),
{
    v.set(i, x)
}

/// Relies on `bit_vec::BitVec::set` on one element of a vector of bit sets,
/// which panics when `j` is out of range: replaces bit `j` of the `i`-th set
/// and leaves every other set as it was.
#[verifier::external_body]
pub fn bits_set_in(vs: &mut Vec<bit_vec::BitVec>, i: usize, j: usize, x: bool)
    requires
        i < old(vs)@.len(),
        j < bits_of(old(vs)@[i as int]).len(),
    ensures
        final(vs)@.len() == old(vs)@.len(),
        bits_of(final(vs)@[i as int]) == bits_of(old(vs)@[i as int]).update(j as int, x),
        forall|k: int| 0 <= k < old(vs)@.len() && k != i ==> final(vs)@[k] == old(vs)@[k],
{
    vs[i].set(j, x)
}

/// Relies on `bit_vec::BitVec::all`: whether every bit is set (true of an
/// empty vector).
#[verifier::external_body]
pub fn bits_all(v: &bit_vec::BitVec) -> (r: bool)
    ensures
        r == (forall|i: int| 0 <= i < bits_of(*v).len() ==> bits_of(*v)[i]),
{
    v.all()
}

} // verus!
