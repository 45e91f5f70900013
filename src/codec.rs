//! Fixed-width packing of one block of `BLOCK_LEN` integers, on top of the
//! `BitPacker8x` packer.
use bitpacking::{BitPacker, BitPacker8x};
use vstd::arithmetic::power2::pow2;
use vstd::prelude::*;

verus! {

/// Number of integers in one packed block.
pub const BLOCK_LEN: usize = 256;

/// Number of packed bytes per bit of width (`BLOCK_LEN / 8`).
pub const BYTES_PER_BIT: usize = 32;

/// The 256 integers that the packer decodes from `bytes` at width `num_bits`.
pub uninterp spec fn unpacked(bytes: Seq<u8>, num_bits: u8) -> Seq<u32>;

/// Every value of `values` is representable in `num_bits` bits.
pub open spec fn fits(values: Seq<u32>, num_bits: nat) -> bool {
    forall|i: int| 0 <= i < values.len() ==> (#[trigger] values[i] as int) < pow2(num_bits)
}

/// `num_bits` is the fewest bits that represent every value of `values`.
pub open spec fn is_min_width(values: Seq<u32>, num_bits: nat) -> bool {
    &&& num_bits <= 32
    &&& fits(values, num_bits)
    &&& num_bits > 0 ==> !fits(values, (num_bits - 1) as nat)
}

/// `values` followed by zeros up to `BLOCK_LEN` entries.
pub open spec fn padded(values: Seq<u32>) -> Seq<u32> {
    values + Seq::new((BLOCK_LEN - values.len()) as nat, |i: int| 0u32)
}

/// Relies on `BitPacker8x::num_bits`: the minimum number of bits that represent the
/// largest integer of a block of exactly `BLOCK_LEN` integers.
#[verifier::external_body]
fn block_num_bits(values: &Vec<u32>) -> (r: u8)
    requires
        values.len() == BLOCK_LEN,
    ensures
        is_min_width(values@, r as nat),
{
    BitPacker8x::new().num_bits(values)
}

/// Relies on `BitPacker8x::compress`: for integers that fit in `num_bits` bits it writes
/// `32 * num_bits` bytes, from which `BitPacker8x::decompress` gives the integers back.
#[verifier::external_body]
fn pack_block(values: &Vec<u32>, out: &mut Vec<u8>, num_bits: u8)
    requires
        values.len() == BLOCK_LEN,
        num_bits <= 32,
        fits(values@, num_bits as nat),
        old(out).len() == BYTES_PER_BIT * num_bits,
    ensures
        final(out).len() == old(out).len(),
        unpacked(final(out)@, num_bits) == values@,
{
    BitPacker8x::new().compress(values, out, num_bits);
}

/// Relies on `BitPacker8x::decompress`: it writes the `BLOCK_LEN` integers decoded from
/// `32 * num_bits` bytes into the front of `out`.
#[verifier::external_body]
fn unpack_block(bytes: &[u8], out: &mut Vec<u32>, num_bits: u8)
    requires
        num_bits <= 32,
        bytes@.len() == BYTES_PER_BIT * num_bits,
        old(out).len() == BLOCK_LEN,
    ensures
        final(out).len() == BLOCK_LEN,
        final(out)@ == unpacked(bytes@, num_bits),
{
    BitPacker8x::new().decompress(bytes, out, num_bits);
}

/// Appends zeros to `data` until it holds `BLOCK_LEN` integers.
pub fn pad_block(data: &mut Vec<u32>)
    requires
        old(data).len() <= BLOCK_LEN,
    ensures
        final(data)@ == padded(old(data)@),
{
    while data.len() < BLOCK_LEN
        invariant
            old(data).len() <= data.len() <= BLOCK_LEN,
            data@ == old(data)@ + Seq::new((data.len() - old(data).len()) as nat, |i: int| 0u32),
        decreases BLOCK_LEN - data.len(),
    {
        data.push(0);
    }
    assert(data@ =~= padded(old(data)@));
}

/// Packs `data`, zero-padded to a full block, at the smallest width that holds it.
/// The packed bytes replace the contents of `out`; the width is returned.
pub fn compress(data: Vec<u32>, out: &mut Vec<u8>) -> (num_bits: u8)
    requires
        data.len() <= BLOCK_LEN,
    ensures
        is_min_width(padded(data@), num_bits as nat),
        final(out)@.len() == BYTES_PER_BIT * num_bits,
        unpacked(final(out)@, num_bits) == padded(data@),
{
    let mut data = data;
    pad_block(&mut data);
    let num_bits = block_num_bits(&data);
    out.clear();
    out.resize(BYTES_PER_BIT * num_bits as usize, 0);
    pack_block(&data, out, num_bits);
    num_bits
}

/// Decodes the first `32 * num_bits` bytes of `data`, packed at width `num_bits`, into
/// the first `BLOCK_LEN` slots of `out`. A shorter `out` first grows to `BLOCK_LEN`
/// integers; slots past `BLOCK_LEN` keep their values. Bytes after the packed ones are
/// ignored.
pub fn decompress(data: &[u8], num_bits: u8, out: &mut Vec<u32>)
    requires
        num_bits <= 32,
        data@.len() >= BYTES_PER_BIT * num_bits,
    ensures
        final(out)@.len() == if old(out)@.len() > BLOCK_LEN { old(out)@.len() } else { BLOCK_LEN as nat },
        final(out)@.subrange(0, BLOCK_LEN as int) == unpacked(
            data@.subrange(0, BYTES_PER_BIT * num_bits),
            num_bits,
        ),
        forall|i: int| BLOCK_LEN <= i < old(out)@.len() ==> final(out)@[i] == old(out)@[i],
{
    let compressed_len = BYTES_PER_BIT * num_bits as usize;
    let packed = vstd::slice::slice_subrange(data, 0, compressed_len);
    let mut block: Vec<u32> = vec![0u32; BLOCK_LEN];
    unpack_block(packed, &mut block, num_bits);
    if out.len() < BLOCK_LEN {
        out.resize(BLOCK_LEN, 0);
    }
    let ghost grown = out@;
    let mut i: usize = 0;
    while i < BLOCK_LEN
        invariant
            i <= BLOCK_LEN,
            block@.len() == BLOCK_LEN,
            out@.len() == grown.len(),
            grown.len() >= BLOCK_LEN,
            forall|j: int| 0 <= j < i ==> out@[j] == block@[j],
            forall|j: int| i <= j < grown.len() ==> out@[j] == grown[j],
        decreases BLOCK_LEN - i,
    {
        out.set(i, block[i]);
        i += 1;
    }
    assert(out@.subrange(0, BLOCK_LEN as int) =~= block@);
}

} // verus!
