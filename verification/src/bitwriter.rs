//! Bit-level output through `bitstream_io::BitWriter`, with the bits it
//! holds named so that what goes out can be stated.
use vstd::prelude::*;

use bitstream_io::{BigEndian, BitWrite, BitWriter};

verus! {

/// A big-endian `bitstream_io::BitWriter` over a byte vector, read
/// through [`written_bits`].
#[verifier::external_body]
pub struct BitSink {
    inner: BitWriter<Vec<u8>, BigEndian>,
}

#[verifier::external_type_specification]
#[verifier::external_body]
pub struct ExIoError(std::io::Error);

/// The bits written to a big-endian bit writer over a byte vector since it
/// was made, oldest first.
pub uninterp spec fn written_bits(w: BitSink) -> Seq<bool>;

/// The `n` low bits of `value`, most significant first.
pub open spec fn msb_bits(n: nat, value: int) -> Seq<bool>
    decreases n,
{
    if n == 0 {
        Seq::empty()
    } else {
        msb_bits((n - 1) as nat, value / 2).push(value % 2 == 1)
    }
}

/// The byte whose bits, most significant first, are the first eight of `b`.
pub open spec fn byte_of(b: Seq<bool>) -> u8 {
    ((if b[0] { 128int } else { 0 }) + (if b[1] { 64int } else { 0 }) + (if b[2] { 32int } else { 0 })
        + (if b[3] { 16int } else { 0 }) + (if b[4] { 8int } else { 0 }) + (if b[5] { 4int } else { 0 })
        + (if b[6] { 2int } else { 0 }) + (if b[7] { 1int } else { 0 })) as u8
}

/// The whole bytes that a bit sequence fills, most significant bit first;
/// trailing bits that do not fill a byte are left out.
pub open spec fn pack_bytes(bits: Seq<bool>) -> Seq<u8>
    decreases bits.len(),
{
    if bits.len() < 8 {
        Seq::empty()
    } else {
        seq![byte_of(bits.take(8))] + pack_bytes(bits.skip(8))
    }
}

/// `BitWriter::endian(Vec::new(), BigEndian)`: a writer that holds no bit.
#[verifier::external_body]
pub(crate) fn new_bit_writer() -> (w: BitSink)
    ensures
        written_bits(w) == Seq::<bool>::empty(),
{
    BitSink { inner: BitWriter::endian(Vec::new(), BigEndian) }
}

/// `BitWrite::write_bit`: appends one bit. Writing into a byte vector
/// cannot fail.
#[verifier::external_body]
pub(crate) fn write_bit(w: &mut BitSink, bit: bool) -> (r: Result<(), std::io::Error>)
    ensures
        r is Ok,
        written_bits(*final(w)) == written_bits(*old(w)).push(bit),
{
    w.inner.write_bit(bit)
}

/// `BitWrite::write` of a `u32`: appends the `bits` low bits of `value`,
/// most significant first. It fails only when `bits` exceeds 32 or `value`
/// does not fit in `bits` bits, which `requires` leaves out, and writing
/// into a byte vector cannot fail.
#[verifier::external_body]
pub(crate) fn write_bits(w: &mut BitSink, bits: u32, value: u32) -> (r: Result<(), std::io::Error>)
    requires
        1 <= bits <= 32,
        bits < 32 ==> value < vstd::arithmetic::power2::pow2(bits as nat),
    ensures
        r is Ok,
        written_bits(*final(w)) == written_bits(*old(w)) + msb_bits(bits as nat, value as int),
{
    w.inner.write(bits, value)
}

/// `BitWriter::into_writer`: the byte vector, which holds the whole bytes
/// written; bits that do not fill a byte are dropped.
#[verifier::external_body]
pub(crate) fn into_bytes(w: BitSink) -> (v: Vec<u8>)
    ensures
        v@ == pack_bytes(written_bits(w)),
{
    w.inner.into_writer()
}

} // verus!
