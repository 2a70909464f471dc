//! Little-endian integers and length-prefixed fields of the capture format.

use byteorder::{ByteOrder, LittleEndian};
use vstd::prelude::*;

verus! {

/// `256` raised to the power `n`.
pub open spec fn pow256(n: nat) -> nat
    decreases n,
{
    if n == 0 {
        1
    } else {
        256 * pow256((n - 1) as nat)
    }
}

/// The `n` least significant base-256 digits of `v`, least significant first.
pub open spec fn le_bytes(v: nat, n: nat) -> Seq<u8>
    decreases n,
{
    if n == 0 {
        Seq::empty()
    } else {
        seq![(v % 256) as u8] + le_bytes(v / 256, (n - 1) as nat)
    }
}

/// The number whose base-256 digits, least significant first, are `s`.
pub open spec fn le_value(s: Seq<u8>) -> nat
    decreases s.len(),
{
    if s.len() == 0 {
        0
    } else {
        s[0] as nat + 256 * le_value(s.drop_first())
    }
}

pub proof fn lemma_le_bytes_len(v: nat, n: nat)
    ensures
        le_bytes(v, n).len() == n,
    decreases n,
{
    if n > 0 {
        lemma_le_bytes_len(v / 256, (n - 1) as nat);
    }
}

/// Decoding the digits of a number that fits gives the number back.
pub proof fn lemma_le_value_of_bytes(v: nat, n: nat)
    requires
        v < pow256(n),
    ensures
        le_value(le_bytes(v, n)) == v,
    decreases n,
{
    if n > 0 {
        let rest = le_bytes(v / 256, (n - 1) as nat);
        lemma_le_value_of_bytes(v / 256, (n - 1) as nat);
        assert((seq![(v % 256) as u8] + rest).drop_first() =~= rest);
    }
}

/// A value read from `s` fits in `s.len()` bytes.
pub proof fn lemma_le_value_bound(s: Seq<u8>)
    ensures
        le_value(s) < pow256(s.len()),
    decreases s.len(),
{
    if s.len() > 0 {
        lemma_le_value_bound(s.drop_first());
    }
}

/// Encoding the value read from `s` in `s.len()` bytes gives `s` back.
pub proof fn lemma_le_bytes_of_value(s: Seq<u8>)
    ensures
        le_bytes(le_value(s), s.len()) == s,
    decreases s.len(),
{
    if s.len() > 0 {
        let t = s.drop_first();
        lemma_le_bytes_of_value(t);
        let v = le_value(s);
        assert(v % 256 == s[0] as nat);
        assert(v / 256 == le_value(t));
        assert(le_bytes(v, s.len()) =~= s);
    }
}

pub proof fn lemma_pow256_values()
    ensures
        pow256(2) == 0x1_0000,
        pow256(4) == 0x1_0000_0000,
        pow256(8) == 0x1_0000_0000_0000_0000,
{
    reveal_with_fuel(pow256, 9);
}

/// `LittleEndian::write_u16` (byteorder) into a two-byte buffer: the buffer
/// holds the two bytes of `n`, least significant first.
#[verifier::external_body]
pub(crate) fn le_encode_u16(n: u16) -> (r: [u8; 2])
    ensures
        r@ == le_bytes(n as nat, 2),
{
    let mut buf = [0u8; 2];
    LittleEndian::write_u16(&mut buf, n);
    buf
}

/// `LittleEndian::write_u32` (byteorder) into a four-byte buffer.
#[verifier::external_body]
pub(crate) fn le_encode_u32(n: u32) -> (r: [u8; 4])
    ensures
        r@ == le_bytes(n as nat, 4),
{
    let mut buf = [0u8; 4];
    LittleEndian::write_u32(&mut buf, n);
    buf
}

/// `LittleEndian::write_u64` (byteorder) into an eight-byte buffer.
#[verifier::external_body]
pub(crate) fn le_encode_u64(n: u64) -> (r: [u8; 8])
    ensures
        r@ == le_bytes(n as nat, 8),
{
    let mut buf = [0u8; 8];
    LittleEndian::write_u64(&mut buf, n);
    buf
}

/// `LittleEndian::read_u16` (byteorder) on the two bytes at `pos`.
#[verifier::external_body]
pub(crate) fn le_decode_u16(bytes: &[u8], pos: usize) -> (r: u16)
    requires
        pos + 2 <= bytes@.len(),
    ensures
        r as nat == le_value(bytes@.subrange(pos as int, pos + 2)),
{
    LittleEndian::read_u16(&bytes[pos..])
}

/// `LittleEndian::read_u32` (byteorder) on the four bytes at `pos`.
#[verifier::external_body]
pub(crate) fn le_decode_u32(bytes: &[u8], pos: usize) -> (r: u32)
    requires
        pos + 4 <= bytes@.len(),
    ensures
        r as nat == le_value(bytes@.subrange(pos as int, pos + 4)),
{
    LittleEndian::read_u32(&bytes[pos..])
}

/// `LittleEndian::read_u64` (byteorder) on the eight bytes at `pos`.
#[verifier::external_body]
pub(crate) fn le_decode_u64(bytes: &[u8], pos: usize) -> (r: u64)
    requires
        pos + 8 <= bytes@.len(),
    ensures
        r as nat == le_value(bytes@.subrange(pos as int, pos + 8)),
{
    LittleEndian::read_u64(&bytes[pos..])
}

/// Appends `bytes` to `out`.
pub fn put_bytes(out: &mut Vec<u8>, bytes: &[u8])
    ensures
        final(out)@ == old(out)@ + bytes@,
{
    let mut i: usize = 0;
    while i < bytes.len()
        invariant
            i <= bytes@.len(),
            out@ == old(out)@ + bytes@.subrange(0, i as int),
        decreases bytes@.len() - i,
    {
        out.push(bytes[i]);
        i = i + 1;
        assert(out@ =~= old(out)@ + bytes@.subrange(0, i as int));
    }
    assert(bytes@.subrange(0, bytes@.len() as int) =~= bytes@);
}

} // verus!
