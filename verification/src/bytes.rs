//! Little-endian 32-bit fields, the only number format of the archive.

use byteorder::WriteBytesExt;
use vstd::prelude::*;

verus! {

/// The four bytes of `n`, least significant first.
pub open spec fn spec_u32_le(n: u32) -> Seq<u8> {
    seq![
        (n % 256) as u8,
        ((n / 256) % 256) as u8,
        ((n / 65536) % 256) as u8,
        (n / 16777216) as u8,
    ]
}

/// The number whose little-endian bytes are the first four of `bytes`.
pub open spec fn spec_le_u32(bytes: Seq<u8>) -> u32
    recommends
        bytes.len() >= 4,
{
    (bytes[0] + bytes[1] * 256 + bytes[2] * 65536 + bytes[3] * 16777216) as u32
}

/// Reading back what was written gives the number that was written.
pub proof fn lemma_le_u32_of_u32_le(n: u32)
    ensures
        spec_u32_le(n).len() == 4,
        spec_le_u32(spec_u32_le(n)) == n,
{
}

/// Writing what was read gives the four bytes that were read.
pub proof fn lemma_u32_le_of_le_u32(bytes: Seq<u8>)
    requires
        bytes.len() == 4,
    ensures
        spec_u32_le(spec_le_u32(bytes)) == bytes,
{
    let b0: int = bytes[0] as int;
    let b1: int = bytes[1] as int;
    let b2: int = bytes[2] as int;
    let b3: int = bytes[3] as int;
    let n: int = b0 + b1 * 256 + b2 * 65536 + b3 * 16777216;
    assert(spec_le_u32(bytes) == n);
    assert(n % 256 == b0);
    assert(n / 256 == b1 + b2 * 256 + b3 * 65536);
    assert((n / 256) % 256 == b1);
    assert(n / 65536 == b2 + b3 * 256);
    assert((n / 65536) % 256 == b2);
    assert(n / 16777216 == b3);
    assert(spec_u32_le(spec_le_u32(bytes)) =~= bytes);
}

/// Appends `n` to `buf` as four little-endian bytes.
///
/// Trusted: calls `byteorder::WriteBytesExt::write_u32::<LittleEndian>` on the
/// vector. That method fills a four-byte buffer with `n.to_le_bytes()` and hands
/// it to `write_all`, which for a `Vec<u8>` appends and never fails.
#[verifier::external_body]
pub(crate) fn write_u32_le(buf: &mut Vec<u8>, n: u32)
    ensures
        final(buf)@ == old(buf)@ + spec_u32_le(n),
{
    buf.write_u32::<byteorder::LittleEndian>(n).expect("Could not write u32 to entry Vec");
}

/// Reads the little-endian number that starts at byte `at` of `input`.
pub fn read_u32_le(input: &[u8], at: usize) -> (n: u32)
    requires
        at + 4 <= input@.len(),
    ensures
        n == spec_le_u32(input@.subrange(at as int, at + 4)),
{
    let b0: u32 = input[at] as u32;
    let b1: u32 = input[at + 1] as u32;
    let b2: u32 = input[at + 2] as u32;
    let b3: u32 = input[at + 3] as u32;
    b0 + b1 * 256 + b2 * 65536 + b3 * 16777216
}

/// `n` zero bytes.
pub open spec fn zeros(n: nat) -> Seq<u8> {
    Seq::new(n, |i: int| 0u8)
}

/// Appends the bytes of `source` to `buf`.
pub fn append_bytes(buf: &mut Vec<u8>, source: &[u8])
    ensures
        final(buf)@ == old(buf)@ + source@,
{
    let mut i: usize = 0;
    while i < source.len()
        invariant
            i <= source@.len(),
            buf@ == old(buf)@ + source@.take(i as int),
        decreases source@.len() - i,
    {
        buf.push(source[i]);
        i = i + 1;
        assert(buf@ =~= old(buf)@ + source@.take(i as int));
    }
    assert(source@.take(i as int) =~= source@);
}

/// Appends `n` zero bytes to `buf`.
pub fn append_zeros(buf: &mut Vec<u8>, n: usize)
    ensures
        final(buf)@ == old(buf)@ + zeros(n as nat),
{
    let mut i: usize = 0;
    while i < n
        invariant
            i <= n,
            buf@ == old(buf)@ + zeros(i as nat),
        decreases n - i,
    {
        buf.push(0x00);
        i = i + 1;
        assert(buf@ =~= old(buf)@ + zeros(i as nat));
    }
}

} // verus!
