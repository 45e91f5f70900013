//! The binary form of a `CVec`, little-endian throughout:
//! `u64` item count, `u32` block count, then for each block its `u8` bit width followed
//! by `32 * width` packed bytes.
use crate::codec::BYTES_PER_BIT;
use crate::{block_ok, blocks_view, Block, CVec};
use vstd::prelude::*;

verus! {

/// A field of the binary form.
#[derive(Clone, Copy, Debug, PartialEq, Eq)]
pub enum WireField {
    ItemCount,
    BlockCount,
    /// The width byte of the block with this index.
    BitWidth(u32),
    /// The packed bytes of the block with this index.
    PackedBytes(u32),
}

/// Why bytes could not be read as a `CVec`.
#[derive(Clone, Copy, Debug, PartialEq, Eq)]
pub enum DecodeError {
    /// The bytes end before the named field is complete.
    UnexpectedEnd(WireField),
    /// The block with this index declares a width above 32 bits.
    InvalidBitWidth(u32),
    /// The declared blocks cannot hold the declared number of items.
    TooFewBlocks,
    /// The declared blocks hold more values than a `usize` can count.
    TooLarge,
}

/// The eight little-endian bytes of `x`.
pub open spec fn le64(x: u64) -> Seq<u8> {
    seq![
        x as u8, (x >> 8u64) as u8, (x >> 16u64) as u8, (x >> 24u64) as u8,
        (x >> 32u64) as u8, (x >> 40u64) as u8, (x >> 48u64) as u8, (x >> 56u64) as u8,
    ]
}

/// The four little-endian bytes of `x`.
pub open spec fn le32(x: u32) -> Seq<u8> {
    seq![x as u8, (x >> 8u32) as u8, (x >> 16u32) as u8, (x >> 24u32) as u8]
}

/// The `u64` whose little-endian bytes are `b[0..8]`.
pub open spec fn u64_of(b: Seq<u8>) -> u64 {
    (b[0] as u64) | ((b[1] as u64) << 8u64) | ((b[2] as u64) << 16u64) | ((b[3] as u64) << 24u64)
        | ((b[4] as u64) << 32u64) | ((b[5] as u64) << 40u64) | ((b[6] as u64) << 48u64) | ((
    b[7] as u64) << 56u64)
}

/// The `u32` whose little-endian bytes are `b[0..4]`.
pub open spec fn u32_of(b: Seq<u8>) -> u32 {
    (b[0] as u32) | ((b[1] as u32) << 8u32) | ((b[2] as u32) << 16u32) | ((b[3] as u32) << 24u32)
}

/// Each block as its width byte followed by its packed bytes, in order.
pub open spec fn encode_blocks(blocks: Seq<(u8, Seq<u8>)>) -> Seq<u8>
    decreases blocks.len(),
{
    if blocks.len() == 0 {
        Seq::empty()
    } else {
        encode_blocks(blocks.drop_last()) + seq![blocks.last().0] + blocks.last().1
    }
}

/// The binary form of a vector of `items` values stored in `blocks`.
pub open spec fn wire_encoding(items: u64, blocks: Seq<(u8, Seq<u8>)>) -> Seq<u8> {
    le64(items) + le32(blocks.len() as u32) + encode_blocks(blocks)
}

/// Reads the first `k` blocks of `b`, which start at byte 12: the blocks and the
/// position after them, or the first error met.
pub open spec fn parse_blocks(b: Seq<u8>, k: nat) -> Result<(Seq<(u8, Seq<u8>)>, nat), DecodeError>
    decreases k,
{
    if k == 0 {
        Ok((Seq::empty(), 12))
    } else {
        match parse_blocks(b, (k - 1) as nat) {
            Err(e) => Err(e),
            Ok((blocks, pos)) => {
                let idx = (k - 1) as u32;
                if pos >= b.len() {
                    Err(DecodeError::UnexpectedEnd(WireField::BitWidth(idx)))
                } else if b[pos as int] > 32 {
                    Err(DecodeError::InvalidBitWidth(idx))
                } else if pos + 1 + 32 * b[pos as int] > b.len() {
                    Err(DecodeError::UnexpectedEnd(WireField::PackedBytes(idx)))
                } else {
                    let end = pos + 1 + 32 * b[pos as int];
                    Ok((blocks.push((b[pos as int], b.subrange((pos + 1) as int, end as int))), end as nat))
                }
            },
        }
    }
}

/// Reads `b` as the binary form of a vector: its item count and blocks, or the first
/// error met. Bytes after the last block are not read.
pub open spec fn decode_wire(b: Seq<u8>) -> Result<(nat, Seq<(u8, Seq<u8>)>), DecodeError> {
    if b.len() < 8 {
        Err(DecodeError::UnexpectedEnd(WireField::ItemCount))
    } else if b.len() < 12 {
        Err(DecodeError::UnexpectedEnd(WireField::BlockCount))
    } else {
        let items = u64_of(b.subrange(0, 8));
        let n = u32_of(b.subrange(8, 12));
        if items > n * 256 {
            Err(DecodeError::TooFewBlocks)
        } else if n * 256 > usize::MAX {
            Err(DecodeError::TooLarge)
        } else {
            match parse_blocks(b, n as nat) {
                Err(e) => Err(e),
                Ok((blocks, _)) => Ok((items as nat, blocks)),
            }
        }
    }
}

/// Appends the little-endian bytes of `x`.
fn write_u64(out: &mut Vec<u8>, x: u64)
    ensures
        final(out)@ == old(out)@ + le64(x),
{
    out.push(x as u8);
    out.push((x >> 8u64) as u8);
    out.push((x >> 16u64) as u8);
    out.push((x >> 24u64) as u8);
    out.push((x >> 32u64) as u8);
    out.push((x >> 40u64) as u8);
    out.push((x >> 48u64) as u8);
    out.push((x >> 56u64) as u8);
    assert(final(out)@ =~= old(out)@ + le64(x));
}

/// Appends the little-endian bytes of `x`.
fn write_u32(out: &mut Vec<u8>, x: u32)
    ensures
        final(out)@ == old(out)@ + le32(x),
{
    out.push(x as u8);
    out.push((x >> 8u32) as u8);
    out.push((x >> 16u32) as u8);
    out.push((x >> 24u32) as u8);
    assert(final(out)@ =~= old(out)@ + le32(x));
}

/// Reads the `u64` whose little-endian bytes start at `pos`.
fn read_u64(b: &[u8], pos: usize) -> (r: u64)
    requires
        pos + 8 <= b@.len(),
    ensures
        r == u64_of(b@.subrange(pos as int, pos + 8)),
{
    (b[pos] as u64) | ((b[pos + 1] as u64) << 8u64) | ((b[pos + 2] as u64) << 16u64) | ((b[pos
        + 3] as u64) << 24u64) | ((b[pos + 4] as u64) << 32u64) | ((b[pos + 5] as u64) << 40u64)
        | ((b[pos + 6] as u64) << 48u64) | ((b[pos + 7] as u64) << 56u64)
}

/// Reads the `u32` whose little-endian bytes start at `pos`.
fn read_u32(b: &[u8], pos: usize) -> (r: u32)
    requires
        pos + 4 <= b@.len(),
    ensures
        r == u32_of(b@.subrange(pos as int, pos + 4)),
{
    (b[pos] as u32) | ((b[pos + 1] as u32) << 8u32) | ((b[pos + 2] as u32) << 16u32) | ((b[pos
        + 3] as u32) << 24u32)
}

/// Copies `b[start..end]` into a new vector.
fn copy_bytes(b: &[u8], start: usize, end: usize) -> (r: Vec<u8>)
    requires
        start <= end <= b@.len(),
    ensures
        r@ == b@.subrange(start as int, end as int),
{
    let mut r: Vec<u8> = Vec::with_capacity(end - start);
    let mut i: usize = start;
    while i < end
        invariant
            start <= i <= end <= b@.len(),
            r@ == b@.subrange(start as int, i as int),
        decreases end - i,
    {
        r.push(b[i]);
        i += 1;
    }
    r
}

impl CVec {
    /// Returns the binary form of the vector: the item count as a `u64`, the block
    /// count as a `u32`, then each block's width byte and packed bytes.
    pub fn as_bytes(&self) -> (r: Vec<u8>)
        requires
            self.wf(),
            self.blocks().len() <= u32::MAX,
        ensures
            r@ == wire_encoding(self@.len() as u64, self.blocks()),
    {
        let mut out: Vec<u8> = Vec::new();
        write_u64(&mut out, self.items as u64);
        write_u32(&mut out, self.data.len() as u32);
        let ghost header = out@;
        let mut i: usize = 0;
        while i < self.data.len()
            invariant
                i <= self.data.len(),
                out@ == header + encode_blocks(self.blocks().take(i as int)),
            decreases self.data.len() - i,
        {
            let block = &self.data[i];
            out.push(block.0);
            let mut j: usize = 0;
            while j < block.1.len()
                invariant
                    j <= block.1@.len(),
                    out@ == header + encode_blocks(self.blocks().take(i as int)) + seq![block.0]
                        + block.1@.take(j as int),
                decreases block.1@.len() - j,
            {
                out.push(block.1[j]);
                j += 1;
                assert(block.1@.take(j as int) =~= block.1@.take(j - 1).push(block.1@[j - 1]));
            }
            proof {
                let t = self.blocks().take(i + 1);
                assert(t.drop_last() =~= self.blocks().take(i as int));
                assert(t.last() == (block.0, block.1@));
                assert(block.1@.take(j as int) =~= block.1@);
                assert(out@ =~= header + encode_blocks(t));
            }
            i += 1;
        }
        assert(self.blocks().take(i as int) =~= self.blocks());
        out
    }

    /// Reads a vector from its binary form (see `as_bytes`). Fails with the first
    /// problem met: the bytes end inside a field, a width is above 32, the blocks cannot
    /// hold the item count, or they hold more values than a `usize` counts.
    pub fn from_bytes(bytes: &[u8]) -> (r: Result<CVec, DecodeError>)
        ensures
            match r {
                Ok(v) => v.wf() && decode_wire(bytes@) == Ok::<(nat, Seq<(u8, Seq<u8>)>), DecodeError>((v@.len(), v.blocks())),
                Err(e) => decode_wire(bytes@) == Err::<(nat, Seq<(u8, Seq<u8>)>), DecodeError>(e),
            },
    {
        let len = bytes.len();
        if len < 8 {
            return Err(DecodeError::UnexpectedEnd(WireField::ItemCount));
        }
        if len < 12 {
            return Err(DecodeError::UnexpectedEnd(WireField::BlockCount));
        }
        let items = read_u64(bytes, 0);
        let n = read_u32(bytes, 8);
        if items > n as u64 * 256 {
            return Err(DecodeError::TooFewBlocks);
        }
        if n as u64 * 256 > usize::MAX as u64 {
            return Err(DecodeError::TooLarge);
        }
        let mut data: Vec<Block> = Vec::new();
        assert(blocks_view(data@) =~= Seq::empty());
        let mut pos: usize = 12;
        let mut k: u32 = 0;
        while k < n
            invariant
                len == bytes@.len(),
                12 <= pos <= len,
                items == u64_of(bytes@.subrange(0, 8)),
                n == u32_of(bytes@.subrange(8, 12)),
                items <= n * 256 <= usize::MAX,
                k <= n,
                parse_blocks(bytes@, k as nat) == Ok::<(Seq<(u8, Seq<u8>)>, nat), DecodeError>(
                    (blocks_view(data@), pos as nat),
                ),
                forall|b: int| 0 <= b < data@.len() ==> block_ok(
                    #[trigger] blocks_view(data@)[b].0,
                    blocks_view(data@)[b].1,
                ),
                data@.len() == k,
            decreases n - k,
        {
            if pos >= len {
                proof {
                    lemma_parse_error_stays(bytes@, (k + 1) as nat, n as nat);
                }
                return Err(DecodeError::UnexpectedEnd(WireField::BitWidth(k)));
            }
            let bits = bytes[pos];
            if bits > 32 {
                proof { lemma_parse_error_stays(bytes@, (k + 1) as nat, n as nat); }
                return Err(DecodeError::InvalidBitWidth(k));
            }
            let size = BYTES_PER_BIT * bits as usize;
            if size > len - pos - 1 {
                proof { lemma_parse_error_stays(bytes@, (k + 1) as nat, n as nat); }
                return Err(DecodeError::UnexpectedEnd(WireField::PackedBytes(k)));
            }
            let packed = copy_bytes(bytes, pos + 1, pos + 1 + size);
            let ghost before = data@;
            data.push((bits, packed));
            proof {
                assert(blocks_view(data@) =~= blocks_view(before).push((bits, packed@)));
            }
            pos = pos + 1 + size;
            k += 1;
        }
        let v = CVec { data, items: items as usize };
        assert(v.blocks().len() == n);
        Ok(v)
    }
}

/// Reading back the binary form of a well-formed vector (with at most `u32::MAX` blocks)
/// gives its item count and blocks unchanged, so every vector read from it holds the
/// same values.
pub proof fn lemma_wire_round_trip(v: CVec)
    requires
        v.wf(),
        v.blocks().len() <= u32::MAX,
    ensures
        decode_wire(wire_encoding(v@.len() as u64, v.blocks())) == Ok::<
            (nat, Seq<(u8, Seq<u8>)>),
            DecodeError,
        >((v@.len(), v.blocks())),
        forall|w: CVec|
            decode_wire(wire_encoding(v@.len() as u64, v.blocks())) == Ok::<
                (nat, Seq<(u8, Seq<u8>)>),
                DecodeError,
            >((w@.len(), w.blocks())) ==> #[trigger] w@ == v@,
{
    let items = v@.len();
    let blocks = v.blocks();
    let n = blocks.len();
    let e = wire_encoding(items as u64, blocks);
    assert(e.subrange(0, 8) =~= le64(items as u64));
    assert(e.subrange(8, 12) =~= le32(n as u32));
    lemma_u64_round_trip(items as u64);
    lemma_u32_round_trip(n as u32);
    lemma_parse_encoded(items as u64, blocks, n);
    assert(blocks.take(n as int) =~= blocks);
}

/// Reading the first `k` blocks of a binary form gives back the first `k` blocks
/// that were written.
proof fn lemma_parse_encoded(items: u64, blocks: Seq<(u8, Seq<u8>)>, k: nat)
    requires
        k <= blocks.len() <= u32::MAX,
        forall|b: int| 0 <= b < blocks.len() ==> block_ok(#[trigger] blocks[b].0, blocks[b].1),
    ensures
        parse_blocks(wire_encoding(items, blocks), k) == Ok::<(Seq<(u8, Seq<u8>)>, nat), DecodeError>(
            (blocks.take(k as int), 12 + encode_blocks(blocks.take(k as int)).len()),
        ),
    decreases k,
{
    let e = wire_encoding(items, blocks);
    if k == 0 {
        assert(blocks.take(0) =~= Seq::empty());
    } else {
        lemma_parse_encoded(items, blocks, (k - 1) as nat);
        let prev = blocks.take(k - 1);
        let cur = blocks.take(k as int);
        assert(cur.drop_last() =~= prev);
        let (bits, bytes) = blocks[k - 1];
        assert(block_ok(blocks[k - 1].0, blocks[k - 1].1));
        let pos: int = 12 + encode_blocks(prev).len() as int;
        lemma_encode_prefix(blocks, k);
        let whole = encode_blocks(blocks);
        let part = encode_blocks(cur);
        assert(part == encode_blocks(prev) + seq![bits] + bytes);
        assert(e == le64(items) + le32(blocks.len() as u32) + whole);
        assert(e[pos] == whole[pos - 12]);
        assert(whole[pos - 12] == part[pos - 12]);
        assert(e[pos] == bits);
        assert(e.subrange(pos + 1, pos + 1 + 32 * bits) =~= bytes) by {
            assert forall|i: int| 0 <= i < bytes.len() implies e.subrange(pos + 1, pos + 1 + 32 * bits)[i] == bytes[i] by {
                assert(e[pos + 1 + i] == whole[pos + 1 + i - 12]);
                assert(whole[pos + 1 + i - 12] == part[pos + 1 + i - 12]);
            }
        }
        assert(prev.push((bits, bytes)) =~= cur);
    }
}

/// The binary form of the first `k` blocks is a prefix of that of all blocks.
proof fn lemma_encode_prefix(blocks: Seq<(u8, Seq<u8>)>, k: nat)
    requires
        k <= blocks.len(),
    ensures
        encode_blocks(blocks.take(k as int)).len() <= encode_blocks(blocks).len(),
        encode_blocks(blocks).subrange(0, encode_blocks(blocks.take(k as int)).len() as int)
            == encode_blocks(blocks.take(k as int)),
    decreases blocks.len() - k,
{
    if k == blocks.len() {
        assert(blocks.take(k as int) =~= blocks);
        assert(encode_blocks(blocks).subrange(0, encode_blocks(blocks).len() as int) =~= encode_blocks(blocks));
    } else {
        let d = blocks.drop_last();
        lemma_encode_prefix(d, k);
        assert(d.take(k as int) =~= blocks.take(k as int));
        let p = encode_blocks(blocks.take(k as int));
        assert(encode_blocks(blocks).subrange(0, p.len() as int) =~= encode_blocks(d).subrange(0, p.len() as int));
    }
}

/// Once reading the first `k` blocks fails, reading more blocks fails the same way.
proof fn lemma_parse_error_stays(b: Seq<u8>, k: nat, n: nat)
    requires
        k <= n,
        parse_blocks(b, k) is Err,
    ensures
        parse_blocks(b, n) == parse_blocks(b, k),
    decreases n - k,
{
    if k < n {
        lemma_parse_error_stays(b, k, (n - 1) as nat);
    }
}

proof fn lemma_u64_round_trip(x: u64)
    ensures
        u64_of(le64(x)) == x,
{
    let b = le64(x);
    let (b0, b1, b2, b3, b4, b5, b6, b7) = (b[0], b[1], b[2], b[3], b[4], b[5], b[6], b[7]);
    assert(b0 == x as u8 && b1 == (x >> 8u64) as u8 && b2 == (x >> 16u64) as u8 && b3 == (x
        >> 24u64) as u8 && b4 == (x >> 32u64) as u8 && b5 == (x >> 40u64) as u8 && b6 == (x
        >> 48u64) as u8 && b7 == (x >> 56u64) as u8);
    assert((b0 as u64) | ((b1 as u64) << 8u64) | ((b2 as u64) << 16u64) | ((b3 as u64) << 24u64)
        | ((b4 as u64) << 32u64) | ((b5 as u64) << 40u64) | ((b6 as u64) << 48u64) | ((b7 as u64)
        << 56u64) == x) by (bit_vector)
        requires
            b0 == x as u8,
            b1 == (x >> 8u64) as u8,
            b2 == (x >> 16u64) as u8,
            b3 == (x >> 24u64) as u8,
            b4 == (x >> 32u64) as u8,
            b5 == (x >> 40u64) as u8,
            b6 == (x >> 48u64) as u8,
            b7 == (x >> 56u64) as u8,
    ;
}

proof fn lemma_u32_round_trip(x: u32)
    ensures
        u32_of(le32(x)) == x,
{
    let b = le32(x);
    let (b0, b1, b2, b3) = (b[0], b[1], b[2], b[3]);
    assert(b0 == x as u8 && b1 == (x >> 8u32) as u8 && b2 == (x >> 16u32) as u8 && b3 == (x
        >> 24u32) as u8);
    assert((b0 as u32) | ((b1 as u32) << 8u32) | ((b2 as u32) << 16u32) | ((b3 as u32) << 24u32)
        == x) by (bit_vector)
        requires
            b0 == x as u8,
            b1 == (x >> 8u32) as u8,
            b2 == (x >> 16u32) as u8,
            b3 == (x >> 24u32) as u8,
    ;
}

} // verus!
