use vstd::prelude::*;
use byteorder::ByteOrder;
use bytes::BufMut;

verus! {

/// `n` written as `k` bytes, least significant first.
pub open spec fn le_bytes(n: nat, k: nat) -> Seq<u8>
    decreases k,
{
    if k == 0 {
        Seq::empty()
    } else {
        seq![(n % 256) as u8] + le_bytes(n / 256, (k - 1) as nat)
    }
}

/// The number that the bytes `s` stand for, least significant first.
pub open spec fn le_value(s: Seq<u8>) -> nat
    decreases s.len(),
{
    if s.len() == 0 {
        0
    } else {
        s[0] as nat + 256 * le_value(s.drop_first())
    }
}

/// `256` to the power `k`.
pub open spec fn pow256(k: nat) -> nat
    decreases k,
{
    if k == 0 {
        1
    } else {
        256 * pow256((k - 1) as nat)
    }
}

/// The bounds of `u32` and `u64`.
pub proof fn lemma_pow256_values()
    ensures
        pow256(4) == 0x1_0000_0000,
        pow256(8) == 0x1_0000_0000_0000_0000,
{
    reveal_with_fuel(pow256, 9);
}

/// Reading back `k` little-endian bytes gives the number written.
pub proof fn lemma_le_round_trip(n: nat, k: nat)
    requires
        n < pow256(k),
    ensures
        le_bytes(n, k).len() == k,
        le_value(le_bytes(n, k)) == n,
    decreases k,
{
    if k > 0 {
        let p = pow256((k - 1) as nat);
        assert(n / 256 < p) by (nonlinear_arith)
            requires
                n < 256 * p,
        ;
        lemma_le_round_trip(n / 256, (k - 1) as nat);
        assert(le_bytes(n, k).drop_first() =~= le_bytes(n / 256, (k - 1) as nat));
        assert(n == n % 256 + 256 * (n / 256)) by (nonlinear_arith);
    }
}

/// The wire form of a length-prefixed string: the byte count plus one as a
/// little-endian `u32`, the bytes, and one zero byte.
pub open spec fn lp_string(s: Seq<u8>) -> Seq<u8> {
    le_bytes((s.len() + 1) as nat, 4) + s + seq![0u8]
}

/// The text that a string reader makes of raw bytes: zero bytes are dropped
/// and every other byte becomes the character of the same code.
pub open spec fn text_of(s: Seq<u8>) -> Seq<char> {
    s.filter(|b: u8| b != 0).map_values(|b: u8| b as char)
}

/// What a growable byte buffer of the `bytes` crate holds.
pub uninterp spec fn buf_bytes(b: bytes::BytesMut) -> Seq<u8>;

#[verifier::external_type_specification]
#[verifier::external_body]
pub struct ExBytesMut(bytes::BytesMut);

/// Relies on `BytesMut::with_capacity`: a new buffer holds no bytes.
#[verifier::external_body]
pub(crate) fn buf_with_capacity(capacity: usize) -> (r: bytes::BytesMut)
    ensures
        buf_bytes(r) == Seq::<u8>::empty(),
{
    bytes::BytesMut::with_capacity(capacity)
}

/// Relies on `BytesMut::len`: the number of bytes held.
#[verifier::external_body]
pub(crate) fn buf_len(b: &bytes::BytesMut) -> (r: usize)
    ensures
        r == buf_bytes(*b).len(),
{
    b.len()
}

/// Relies on `BufMut::put_slice` of `BytesMut`: appends the bytes of `s`.
#[verifier::external_body]
pub(crate) fn buf_put_slice(b: &mut bytes::BytesMut, s: &[u8])
    ensures
        buf_bytes(*final(b)) == buf_bytes(*old(b)) + s@,
{
    b.put_slice(s)
}

/// Relies on `BufMut::put_u8` of `BytesMut`: appends one byte.
#[verifier::external_body]
pub(crate) fn buf_put_u8(b: &mut bytes::BytesMut, n: u8)
    ensures
        buf_bytes(*final(b)) == buf_bytes(*old(b)).push(n),
{
    b.put_u8(n)
}

/// Relies on `BufMut::put_u32_le` of `BytesMut`: appends the four
/// little-endian bytes of `n`.
#[verifier::external_body]
pub(crate) fn buf_put_u32_le(b: &mut bytes::BytesMut, n: u32)
    ensures
        buf_bytes(*final(b)) == buf_bytes(*old(b)) + le_bytes(n as nat, 4),
{
    b.put_u32_le(n)
}

/// Relies on `BufMut::put_u64_le` of `BytesMut`: appends the eight
/// little-endian bytes of `n`.
#[verifier::external_body]
pub(crate) fn buf_put_u64_le(b: &mut bytes::BytesMut, n: u64)
    ensures
        buf_bytes(*final(b)) == buf_bytes(*old(b)) + le_bytes(n as nat, 8),
{
    b.put_u64_le(n)
}

/// Relies on `BufMut::put_bytes` of `BytesMut`: appends `count` copies of `val`.
#[verifier::external_body]
pub(crate) fn buf_put_bytes(b: &mut bytes::BytesMut, val: u8, count: usize)
    ensures
        buf_bytes(*final(b)) == buf_bytes(*old(b)) + Seq::new(count as nat, |i: int| val),
{
    b.put_bytes(val, count)
}

/// Relies on `Vec::from` of a `BytesMut`: the vector holds the buffer's bytes.
#[verifier::external_body]
pub(crate) fn buf_into_vec(b: bytes::BytesMut) -> (r: Vec<u8>)
    ensures
        r@ == buf_bytes(b),
{
    Vec::from(b)
}

/// Relies on byteorder's `LittleEndian::read_u32`: the number that the four
/// bytes at `pos` stand for, least significant first.
#[verifier::external_body]
pub(crate) fn read_u32_at(b: &[u8], pos: usize) -> (r: u32)
    requires
        pos + 4 <= b@.len(),
    ensures
        r as nat == le_value(b@.subrange(pos as int, pos + 4)),
{
    byteorder::LittleEndian::read_u32(&b[pos..])
}

/// Relies on byteorder's `LittleEndian::read_u64`: the number that the eight
/// bytes at `pos` stand for, least significant first.
#[verifier::external_body]
pub(crate) fn read_u64_at(b: &[u8], pos: usize) -> (r: u64)
    requires
        pos + 8 <= b@.len(),
    ensures
        r as nat == le_value(b@.subrange(pos as int, pos + 8)),
{
    byteorder::LittleEndian::read_u64(&b[pos..])
}

/// Relies on `String::push`: appends one character.
#[verifier::external_body]
pub(crate) fn push_char(s: &mut String, c: char)
    ensures
        final(s)@ == old(s)@.push(c),
{
    s.push(c)
}

} // verus!
