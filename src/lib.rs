//! A compressed, growable list of `u32` values. Values are stored in blocks of
//! `BLOCK_LEN` integers, each bit-packed at the smallest width that holds its largest
//! value. Every change to a block decodes it in full, edits the decoded integers and
//! packs them again into a fresh buffer, which then replaces the old block.
use vstd::prelude::*;

/// A read-only cache in front of a `CVec`, for fast sequential or nearby reads.
pub mod buffered;
pub mod codec;
/// Iteration over the values of a `CVec`.
pub mod iter;
pub mod traits;
pub mod wire;

pub use buffered::Buffer;
pub use codec::BLOCK_LEN;

use codec::{compress, decompress, is_min_width, padded, unpacked, BYTES_PER_BIT};

verus! {

/// One stored block: its bit width and its packed bytes.
pub type Block = (u8, Vec<u8>);

/// A block is well formed when its width is at most 32 and its byte count matches it.
pub open spec fn block_ok(bits: u8, bytes: Seq<u8>) -> bool {
    bits <= 32 && bytes.len() == BYTES_PER_BIT * bits
}

/// The view of a list of stored blocks.
pub open spec fn blocks_view(data: Seq<Block>) -> Seq<(u8, Seq<u8>)> {
    data.map_values(|b: Block| (b.0, b.1@))
}

/// `blocks` can hold `items` values, each block is well formed, and the capacity fits
/// in a `usize`.
pub open spec fn parts_ok(blocks: Seq<(u8, Seq<u8>)>, items: nat) -> bool {
    &&& forall|b: int| 0 <= b < blocks.len() ==> block_ok(#[trigger] blocks[b].0, blocks[b].1)
    &&& items <= blocks.len() * 256
    &&& blocks.len() * 256 <= usize::MAX
}

/// The number of blocks needed for `size` values.
pub open spec fn blocks_for(size: nat) -> nat {
    if size % 256 == 0 { size / 256 } else { size / 256 + 1 }
}

/// The values of a list of `items` entries stored in `blocks`: entry `i` is slot
/// `i % 256` of decoded block `i / 256`.
pub open spec fn values_of(items: nat, blocks: Seq<(u8, Seq<u8>)>) -> Seq<u32> {
    Seq::new(items, |i: int| unpacked(blocks[i / 256].1, blocks[i / 256].0)[i % 256])
}

/// A compressed `Vec<u32>`. The size of each block depends on the bit width of the
/// biggest value within it.
#[derive(Clone, Debug, Default)]
pub struct CVec {
    /// The packed blocks.
    data: Vec<Block>,
    /// Count of items in the vector.
    items: usize,
}

impl View for CVec {
    type V = Seq<u32>;

    open spec fn view(&self) -> Seq<u32> {
        values_of(self.spec_len(), self.blocks())
    }
}

impl CVec {
    /// The stored blocks, each as its width and its bytes.
    pub closed spec fn blocks(&self) -> Seq<(u8, Seq<u8>)> {
        blocks_view(self.data@)
    }

    /// The number of values held.
    pub closed spec fn spec_len(&self) -> nat {
        self.items as nat
    }

    /// The blocks are well formed, there are enough of them for the values, and the
    /// capacity fits in a `usize`.
    pub open spec fn wf(&self) -> bool {
        parts_ok(self.blocks(), self.spec_len())
    }

    /// The decoded integers of block `b`.
    pub open spec fn block_values(&self, b: int) -> Seq<u32> {
        unpacked(self.blocks()[b].1, self.blocks()[b].0)
    }

    /// The values stored in block `b`: from entry `256 * b` to the end of the block or
    /// of the vector, whichever comes first.
    pub open spec fn real_values(&self, b: int) -> Seq<u32> {
        let lo = 256 * b;
        let hi = if lo + 256 <= self@.len() { lo + 256 } else { self@.len() as int };
        self@.subrange(lo, hi)
    }

    /// Block `b` is stored compactly: a block that holds values decodes to them followed
    /// by zeros, at the minimum width for those; a block past the values is an empty
    /// block of width 0.
    pub open spec fn block_compact(&self, b: int) -> bool {
        if b < blocks_for(self@.len()) {
            &&& self.block_values(b) == padded(self.real_values(b))
            &&& is_min_width(padded(self.real_values(b)), self.blocks()[b].0 as nat)
        } else {
            self.blocks()[b].0 == 0 && self.blocks()[b].1.len() == 0
        }
    }

    /// Every block is stored as `block_compact` says.
    pub open spec fn compact(&self) -> bool {
        forall|b: int| 0 <= b < self.blocks().len() ==> #[trigger] self.block_compact(b)
    }

    /// Constructs a new, empty `CVec`.
    pub fn new() -> (r: Self)
        ensures
            r.wf(),
            r@ == Seq::<u32>::empty(),
            r.blocks().len() == 0,
            r.compact(),
    {
        let r = Self { data: Vec::new(), items: 0 };
        assert(r.blocks() =~= Seq::empty());
        assert(r@ =~= Seq::empty());
        r
    }

    /// Allocates a vector with `ceil(capacity / 256)` empty blocks, so that `capacity`
    /// values can be stored without allocating another block.
    pub fn with_capacity(capacity: usize) -> (r: Self)
        requires
            blocks_for(capacity as nat) * 256 <= usize::MAX,
        ensures
            r.wf(),
            r@ == Seq::<u32>::empty(),
            r.blocks().len() == blocks_for(capacity as nat),
            forall|b: int| 0 <= b < r.blocks().len() ==> #[trigger] r.blocks()[b] == (0u8, Seq::<u8>::empty()),
            r.compact(),
    {
        let req_blocks = Self::req_block_count(capacity);
        let mut data: Vec<Block> = Vec::new();
        while data.len() < req_blocks
            invariant
                data.len() <= req_blocks,
                req_blocks == blocks_for(capacity as nat),
                forall|b: int| 0 <= b < data.len() ==> (#[trigger] data@[b]).0 == 0 && data@[b].1@.len() == 0,
            decreases req_blocks - data.len(),
        {
            data.push((0, Vec::with_capacity(BLOCK_LEN)));
        }
        let r = Self { data, items: 0 };
        assert(r@ =~= Seq::empty());
        assert forall|b: int| 0 <= b < r.blocks().len() implies #[trigger] r.blocks()[b] == (0u8, Seq::<u8>::empty()) by {
            assert(r.blocks()[b].1 =~= Seq::<u8>::empty());
        }
        r
    }

    /// Returns the number of bytes that the vector's fields and blocks take: two words,
    /// then one width byte and the packed bytes of each block.
    pub fn byte_len(&self) -> (r: usize)
        requires
            self.spec_byte_len() <= usize::MAX,
        ensures
            r == self.spec_byte_len(),
    {
        broadcast use vstd::layout::layout_of_primitives;
        let mut len: usize = core::mem::size_of::<usize>() * 2;
        let mut i: usize = 0;
        while i < self.data.len()
            invariant
                i <= self.data.len(),
                len == 2 * vstd::layout::size_of::<usize>() + blocks_byte_len(self.blocks().take(i as int)),
                self.spec_byte_len() <= usize::MAX,
            decreases self.data.len() - i,
        {
            proof {
                lemma_blocks_byte_len_take(self.blocks(), i as int);
                lemma_blocks_byte_len_take(self.blocks(), (i + 1) as int);
                lemma_blocks_byte_len_prefix(self.blocks(), (i + 1) as int);
                assert(self.blocks().take(i + 1).drop_last() =~= self.blocks().take(i as int));
                assert(self.blocks()[i as int].1.len() == self.data@[i as int].1.len());
            }
            // width byte
            len += 1;
            // packed bytes
            len += self.data[i].1.len();
            i += 1;
        }
        assert(self.blocks().take(i as int) =~= self.blocks());
        len
    }

    /// The value that `byte_len` reports.
    pub open spec fn spec_byte_len(&self) -> int {
        2 * vstd::layout::size_of::<usize>() + blocks_byte_len(self.blocks())
    }

    /// Returns the number of elements in the vector.
    pub fn len(&self) -> (r: usize)
        ensures
            r == self@.len(),
    {
        self.items
    }

    /// Returns true if the vector is empty.
    pub fn is_empty(&self) -> (r: bool)
        ensures
            r == (self@.len() == 0),
    {
        self.len() == 0
    }

    /// Returns the number of values the vector can hold without allocating a block.
    pub fn capacity(&self) -> (r: usize)
        requires
            self.wf(),
        ensures
            r == self.blocks().len() * 256,
    {
        self.data.len() * BLOCK_LEN
    }

    /// Returns the block that `pos` is stored in.
    pub(crate) fn pos_block(pos: usize) -> (r: usize)
        ensures
            r == pos / 256,
    {
        pos / BLOCK_LEN
    }

    /// Returns the slot of `pos` within its block.
    pub(crate) fn pos_in_block(pos: usize) -> (r: usize)
        ensures
            r == pos % 256,
            r < 256,
    {
        pos % BLOCK_LEN
    }

    /// Returns the index in `data` of the block that the next pushed value goes to.
    pub(crate) fn last_block(&self) -> (r: usize)
        ensures
            r == self.spec_len() / 256,
    {
        Self::pos_block(self.items)
    }

    /// Returns true if a new block has to be allocated for the next value.
    fn need_new_block(&self) -> (r: bool)
        ensures
            r == (self.spec_len() / 256 >= self.blocks().len()),
    {
        self.items / BLOCK_LEN >= self.data.len()
    }

    /// Returns the number of blocks required to store `size` elements.
    fn req_block_count(size: usize) -> (r: usize)
        ensures
            r == blocks_for(size as nat),
    {
        if size % BLOCK_LEN != 0 {
            Self::pos_block(size) + 1
        } else {
            Self::pos_block(size)
        }
    }

    /// Decodes block `index` into `out`. Returns `None` if there is no such block.
    pub(crate) fn decompress_block(&self, index: usize, out: &mut Vec<u32>) -> (r: Option<()>)
        requires
            self.wf(),
            old(out).len() <= BLOCK_LEN,
        ensures
            r.is_some() == (index < self.blocks().len()),
            r.is_some() ==> final(out)@ == self.block_values(index as int),
            r.is_some() ==> final(out)@.len() == BLOCK_LEN,
            r.is_none() ==> final(out)@ == old(out)@,
    {
        if index >= self.data.len() {
            return None;
        }
        let ghost b = self.blocks()[index as int];
        assert(block_ok(b.0, b.1));
        let block = &self.data[index];
        decompress(block.1.as_slice(), block.0, out);
        assert(block.1@.subrange(0, BYTES_PER_BIT * block.0) =~= block.1@);
        assert(out@ =~= out@.subrange(0, BLOCK_LEN as int));
        Some(())
    }

    /// Pushes `val` onto the end of the vector. A new block is added when the last one
    /// is full (or there is none); otherwise the last block is decoded, gets `val` in its
    /// next free slot and is packed again.
    pub fn push(&mut self, val: u32)
        requires
            old(self).wf(),
            old(self)@.len() + BLOCK_LEN <= usize::MAX,
        ensures
            final(self).wf(),
            final(self)@ == old(self)@.push(val),
            final(self).blocks().len() == if old(self)@.len() == old(self).blocks().len() * 256 {
                old(self).blocks().len() + 1
            } else {
                old(self).blocks().len()
            },
            final(self).block_compact(old(self)@.len() as int / 256),
            old(self).compact() ==> final(self).compact(),
    {
        let ghost before = *self;
        let ghost old_blocks = self.blocks();
        let ghost old_view = self@;
        let k = self.last_block();
        let ghost decoded: Seq<u32>;
        if self.need_new_block() {
            let mut new_block: Vec<u8> = Vec::with_capacity(BLOCK_LEN);
            let num_bits = compress(vec![val], &mut new_block);
            self.data.push((num_bits, new_block));
            proof {
                decoded = padded(seq![val]);
                assert(self.blocks() =~= old_blocks.push((num_bits, new_block@)));
                assert(padded(seq![val]) =~= padded(padded(seq![val])));
                assert(self.blocks()[k as int] == (num_bits, new_block@));
                assert(self.block_values(k as int) == padded(decoded));
            }
        } else {
            // decode the last block
            let mut block: Vec<u32> = vec![0u32; BLOCK_LEN];
            self.decompress_block(k, &mut block);
            // write the value into its slot; the slots after it are padding
            let slot = self.items % BLOCK_LEN;
            block.set(slot, val);
            zero_from(&mut block, slot + 1);
            proof { decoded = block@; }
            // pack the block into a fresh buffer and put that in place of the old one
            let mut out: Vec<u8> = Vec::new();
            let num_bits = compress(block, &mut out);
            self.data[k] = (num_bits, out);
            proof {
                assert(padded(decoded) =~= decoded);
                assert(self.blocks() =~= old_blocks.update(k as int, (num_bits, out@)));
                assert(self.block_values(k as int) == padded(decoded));
            }
        }
        self.items += 1;
        proof {
            assert forall|i: int| 0 <= i < self@.len() implies self@[i] == old_view.push(val)[i] by {
                if i < old_view.len() {
                    assert(i / 256 <= old_view.len() / 256);
                }
            }
            assert(self@ =~= old_view.push(val));
            assert forall|j: int| 0 <= j < 256 implies #[trigger] decoded[j] == if 256 * k + j < self@.len() {
                self@[256 * k + j]
            } else {
                0u32
            } by {
                if 256 * k + j < old_view.len() {
                    assert((256 * k + j) / 256 == k);
                    assert((256 * k + j) % 256 == j);
                }
            }
            lemma_block_written(self, k as int, decoded);
            if before.compact() {
                assert forall|j: int| 0 <= j < self.blocks().len() implies #[trigger] self.block_compact(j) by {
                    if j != k {
                        assert(before.block_compact(j));
                        if j < k {
                            assert(self.real_values(j) =~= before.real_values(j));
                        }
                        lemma_block_kept(&before, j, self, j);
                    }
                }
            }
        }
    }

    /// Pops the last element from the vector. Returns `None` if the vector is empty.
    /// The last block is dropped when it no longer holds any value; otherwise it is
    /// decoded, the freed slot is zeroed and the block is packed again.
    pub fn pop(&mut self) -> (r: Option<u32>)
        requires
            old(self).wf(),
        ensures
            final(self).wf(),
            old(self)@.len() == 0 ==> r.is_none() && *final(self) == *old(self),
            old(self)@.len() > 0 ==> {
                &&& r == Some(old(self)@.last())
                &&& final(self)@ == old(self)@.drop_last()
                &&& final(self).blocks().len() == if final(self)@.len() % 256 == 0 {
                    old(self).blocks().len() - 1
                } else {
                    old(self).blocks().len() as int
                }
            },
            final(self)@.len() % 256 != 0 ==> final(self).block_compact(final(self)@.len() as int / 256),
            old(self).compact() ==> final(self).compact(),
    {
        if self.is_empty() {
            return None;
        }
        let ghost before = *self;
        let ghost old_blocks = self.blocks();
        let ghost old_view = self@;
        let popped = self.last_unchecked();
        self.items -= 1;
        let k = self.last_block();
        if self.items % BLOCK_LEN == 0 {
            // the last block is empty now: drop it
            self.data.remove(k);
            proof {
                assert(self.blocks() =~= old_blocks.remove(k as int));
                assert forall|i: int| 0 <= i < self@.len() implies self@[i] == old_view[i] by {
                    assert(i / 256 < k);
                }
                assert(self@ =~= old_view.drop_last());
                if before.compact() {
                    assert forall|j: int| 0 <= j < self.blocks().len() implies #[trigger] self.block_compact(j) by {
                        if j < k {
                            assert(before.block_compact(j));
                            assert(self.real_values(j) =~= before.real_values(j));
                            lemma_block_kept(&before, j, self, j);
                        } else {
                            assert(before.block_compact(j + 1));
                            lemma_block_kept(&before, j + 1, self, j);
                        }
                    }
                }
            }
        } else {
            // zero the freed slot and pack the block again
            let mut block: Vec<u32> = vec![0u32; BLOCK_LEN];
            self.decompress_block(k, &mut block);
            let ghost old_block = block@;
            zero_from(&mut block, self.items % BLOCK_LEN);
            let ghost decoded = block@;
            let mut out: Vec<u8> = Vec::new();
            let num_bits = compress(block, &mut out);
            self.data[k] = (num_bits, out);
            proof {
                assert(padded(decoded) =~= decoded);
                assert(self.blocks() =~= old_blocks.update(k as int, (num_bits, out@)));
                assert(self.block_values(k as int) == padded(decoded));
                assert forall|i: int| 0 <= i < self@.len() implies self@[i] == old_view[i] by {
                    if i / 256 == k {
                        assert(i % 256 < self.items % 256);
                    }
                }
                assert(self@ =~= old_view.drop_last());
                assert forall|j: int| 0 <= j < 256 implies #[trigger] decoded[j] == if 256 * k + j < self@.len() {
                    self@[256 * k + j]
                } else {
                    0u32
                } by {
                    if 256 * k + j < self@.len() {
                        assert((256 * k + j) / 256 == k);
                        assert((256 * k + j) % 256 == j);
                        assert(decoded[j] == old_block[j]);
                    }
                }
                lemma_block_written(self, k as int, decoded);
                if before.compact() {
                    assert forall|j: int| 0 <= j < self.blocks().len() implies #[trigger] self.block_compact(j) by {
                        if j != k {
                            assert(before.block_compact(j));
                            if j < k {
                                assert(self.real_values(j) =~= before.real_values(j));
                            }
                            lemma_block_kept(&before, j, self, j);
                        }
                    }
                }
            }
        }
        Some(popped)
    }

    /// Returns the last value of the vector, or `None` if it is empty.
    pub fn last(&self) -> (r: Option<u32>)
        requires
            self.wf(),
        ensures
            r == if self@.len() == 0 { None } else { Some(self@.last()) },
    {
        if self.is_empty() {
            return None;
        }
        Some(self.last_unchecked())
    }

    /// Returns the last value of a vector that is not empty.
    fn last_unchecked(&self) -> (r: u32)
        requires
            self.wf(),
            self@.len() > 0,
        ensures
            r == self@.last(),
    {
        self.get(self.len() - 1).unwrap()
    }

    /// Replaces the value at `pos` with `new`: the block holding it is decoded, changed
    /// and packed again. Returns `None`, and changes nothing, if `pos` is past the end.
    pub fn set(&mut self, pos: usize, new: u32) -> (r: Option<()>)
        requires
            old(self).wf(),
        ensures
            final(self).wf(),
            r.is_some() == (pos < old(self)@.len()),
            r.is_some() ==> final(self)@ == old(self)@.update(pos as int, new),
            r.is_some() ==> final(self).block_compact(pos as int / 256),
            r.is_none() ==> *final(self) == *old(self),
            final(self).blocks().len() == old(self).blocks().len(),
            old(self).compact() ==> final(self).compact(),
    {
        if pos >= self.items {
            return None;
        }
        let ghost before = *self;
        let ghost old_blocks = self.blocks();
        let ghost old_view = self@;
        let k = Self::pos_block(pos);
        let mut decompressed: Vec<u32> = vec![0u32; BLOCK_LEN];
        proof { lemma_block_exists(self, pos as int); }
        self.decompress_block(k, &mut decompressed)?;
        let ghost old_block = decompressed@;
        decompressed.set(Self::pos_in_block(pos), new);
        // the slots past the vector's end are padding
        let used = if self.items - k * BLOCK_LEN < BLOCK_LEN {
            self.items - k * BLOCK_LEN
        } else {
            BLOCK_LEN
        };
        zero_from(&mut decompressed, used);
        let ghost decoded = decompressed@;
        let mut out: Vec<u8> = Vec::new();
        let num_bits = compress(decompressed, &mut out);
        self.data[k] = (num_bits, out);
        proof {
            assert(padded(decoded) =~= decoded);
            assert(self.blocks() =~= old_blocks.update(k as int, (num_bits, out@)));
            assert(self.block_values(k as int) == padded(decoded));
            assert forall|i: int| 0 <= i < self@.len() implies self@[i] == old_view.update(pos as int, new)[i] by {
                if i / 256 == pos / 256 && i != pos {
                    assert(i % 256 != pos % 256);
                }
            }
            assert(self@ =~= old_view.update(pos as int, new));
            assert forall|j: int| 0 <= j < 256 implies #[trigger] decoded[j] == if 256 * k + j < self@.len() {
                self@[256 * k + j]
            } else {
                0u32
            } by {
                if 256 * k + j < self@.len() {
                    assert((256 * k + j) / 256 == k);
                    assert((256 * k + j) % 256 == j);
                    if 256 * k + j != pos {
                        assert(decoded[j] == old_block[j]);
                    }
                }
            }
            lemma_block_written(self, k as int, decoded);
            if before.compact() {
                assert forall|j: int| 0 <= j < self.blocks().len() implies #[trigger] self.block_compact(j) by {
                    if j != k {
                        assert(before.block_compact(j));
                        if j < blocks_for(self@.len()) {
                            let a = before.real_values(j);
                            let c = self.real_values(j);
                            assert(a.len() == c.len());
                            assert forall|i: int| 0 <= i < c.len() implies c[i] == a[i] by {
                                assert((256 * j + i) / 256 == j);
                                assert(256 * j + i != pos);
                            }
                            assert(c =~= a);
                        }
                        lemma_block_kept(&before, j, self, j);
                    }
                }
            }
        }
        Some(())
    }

    /// Appends all of `values`. Cheaper than pushing them one by one: the free slots of
    /// the last block are filled in one decode and pack, and the rest is packed directly
    /// in runs of up to `BLOCK_LEN` values into spare or new blocks, with no decoding.
    pub fn extend(&mut self, values: &[u32])
        requires
            old(self).wf(),
            old(self)@.len() + values@.len() + BLOCK_LEN <= usize::MAX,
        ensures
            final(self).wf(),
            final(self)@ == old(self)@ + values@,
            final(self).blocks().len() == max_nat(
                old(self).blocks().len(),
                blocks_for(final(self)@.len()),
            ),
            old(self).compact() ==> final(self).compact(),
    {
        let ghost start_self = *self;
        let ghost old_view = self@;
        let ghost old_count = self.blocks().len();
        let n = values.len();
        // How many values were appended
        let mut pushed: usize = 0;

        // Fill the last block
        if !self.need_new_block() && n > 0 {
            let ghost before = *self;
            let ghost old_blocks = self.blocks();
            let k = self.last_block();
            let start = self.items % BLOCK_LEN;
            // decode the last block
            let mut block: Vec<u32> = vec![0u32; BLOCK_LEN];
            self.decompress_block(k, &mut block);
            let ghost first = block@;
            // write the values into the free slots
            let mut i: usize = start;
            while i < BLOCK_LEN && pushed < n
                invariant
                    start <= i <= BLOCK_LEN,
                    pushed == i - start,
                    pushed <= n,
                    n == values@.len(),
                    block@.len() == BLOCK_LEN,
                    forall|j: int| 0 <= j < start ==> block@[j] == first[j],
                    forall|j: int| start <= j < i ==> block@[j] == values@[j - start],
                decreases BLOCK_LEN - i,
            {
                block.set(i, values[pushed]);
                pushed += 1;
                i += 1;
            }
            // the slots after the values are padding
            zero_from(&mut block, i);
            let ghost decoded = block@;
            // pack the block again
            let mut out: Vec<u8> = Vec::new();
            let num_bits = compress(block, &mut out);
            self.data[k] = (num_bits, out);
            self.items += pushed;
            proof {
                assert(padded(decoded) =~= decoded);
                assert(self.blocks() =~= old_blocks.update(k as int, (num_bits, out@)));
                assert(self.block_values(k as int) == padded(decoded));
                assert forall|j: int| 0 <= j < self@.len() implies self@[j] == (old_view + values@.take(pushed as int))[j] by {
                    if j < old_view.len() {
                        assert(j / 256 <= old_view.len() / 256);
                    } else {
                        assert(j / 256 == old_view.len() / 256);
                    }
                }
                assert(self@ =~= old_view + values@.take(pushed as int));
                assert forall|j: int| 0 <= j < 256 implies #[trigger] decoded[j] == if 256 * k + j < self@.len() {
                    self@[256 * k + j]
                } else {
                    0u32
                } by {
                    if 256 * k + j < self@.len() {
                        assert((256 * k + j) / 256 == k);
                        assert((256 * k + j) % 256 == j);
                    }
                }
                lemma_block_written(self, k as int, decoded);
                if before.compact() {
                    assert forall|j: int| 0 <= j < self.blocks().len() implies #[trigger] self.block_compact(j) by {
                        if j != k {
                            assert(before.block_compact(j));
                            if j < k {
                                assert(self.real_values(j) =~= before.real_values(j));
                            }
                            lemma_block_kept(&before, j, self, j);
                        }
                    }
                }
            }
        }

        // Pack the rest into spare or new blocks, up to `BLOCK_LEN` values at a time
        while pushed < n
            invariant
                self.wf(),
                pushed <= n,
                n == values@.len(),
                self@ == old_view + values@.take(pushed as int),
                pushed < n ==> self@.len() % 256 == 0,
                old_view.len() + n + BLOCK_LEN <= usize::MAX,
                self.blocks().len() == max_nat(old_count, blocks_for(self@.len())),
                start_self.compact() ==> self.compact(),
            decreases n - pushed,
        {
            let ghost before = *self;
            let ghost old_blocks = self.blocks();
            let ghost view_before = self@;
            let end = if n - pushed < BLOCK_LEN { n } else { pushed + BLOCK_LEN };
            let chunk = copy_range(values, pushed, end);
            let ghost decoded = padded(chunk@);
            let chunk_len = end - pushed;
            let mut block: Vec<u8> = Vec::new();
            let num_bits = compress(chunk, &mut block);
            let k = self.last_block();
            if k < self.data.len() {
                self.data[k] = (num_bits, block);
                proof {
                    assert(self.blocks() =~= old_blocks.update(k as int, (num_bits, block@)));
                }
            } else {
                self.data.push((num_bits, block));
                proof {
                    assert(self.blocks() =~= old_blocks.push((num_bits, block@)));
                }
            }
            self.items += chunk_len;
            pushed = end;
            proof {
                assert forall|j: int| 0 <= j < self@.len() implies self@[j] == (old_view + values@.take(pushed as int))[j] by {
                    if j < view_before.len() {
                        assert(j / 256 < k);
                        assert(self@[j] == view_before[j]);
                    } else {
                        assert(j / 256 == k);
                        assert(j % 256 == j - view_before.len());
                    }
                }
                assert(self@ =~= old_view + values@.take(pushed as int));
                assert(padded(decoded) =~= decoded);
                assert(self.blocks()[k as int] == (num_bits, block@));
                assert(self.block_values(k as int) == padded(decoded));
                assert forall|j: int| 0 <= j < 256 implies #[trigger] decoded[j] == if 256 * k + j < self@.len() {
                    self@[256 * k + j]
                } else {
                    0u32
                } by {
                    if 256 * k + j < self@.len() {
                        assert((256 * k + j) / 256 == k);
                        assert((256 * k + j) % 256 == j);
                    }
                }
                lemma_block_written(self, k as int, decoded);
                if before.compact() {
                    assert forall|j: int| 0 <= j < self.blocks().len() implies #[trigger] self.block_compact(j) by {
                        if j != k {
                            assert(before.block_compact(j));
                            if j < k {
                                assert(self.real_values(j) =~= before.real_values(j));
                            }
                            lemma_block_kept(&before, j, self, j);
                        }
                    }
                }
            }
        }
        assert(values@.take(n as int) =~= values@);
    }

    /// Tells whether the vector is well formed: every block's width is at most 32 and
    /// matches its byte count, the blocks can hold the values, and the capacity fits
    /// in a `usize`.
    pub fn check_wf(&self) -> (r: bool)
        ensures
            r == self.wf(),
    {
        let cap = match self.data.len().checked_mul(BLOCK_LEN) {
            Some(c) => c,
            None => return false,
        };
        if self.items > cap {
            return false;
        }
        let mut i: usize = 0;
        while i < self.data.len()
            invariant
                i <= self.data.len(),
                forall|b: int| 0 <= b < i ==> block_ok(#[trigger] self.blocks()[b].0, self.blocks()[b].1),
            decreases self.data.len() - i,
        {
            let bits = self.data[i].0;
            if bits > 32 || self.data[i].1.len() != BYTES_PER_BIT * bits as usize {
                assert(!block_ok(self.blocks()[i as int].0, self.blocks()[i as int].1));
                return false;
            }
            i += 1;
        }
        true
    }

    /// Builds a vector from its blocks and its count of values, or returns `None` if
    /// the two do not make a well-formed vector (see `check_wf`).
    pub fn from_parts(data: Vec<Block>, items: usize) -> (r: Option<CVec>)
        ensures
            r.is_some() == parts_ok(blocks_view(data@), items as nat),
            r matches Some(v) ==> v.blocks() == blocks_view(data@) && v@ == values_of(
                items as nat,
                v.blocks(),
            ),
    {
        let v = CVec { data, items };
        if v.check_wf() {
            Some(v)
        } else {
            None
        }
    }

    /// The stored blocks, each as its width and its packed bytes.
    pub fn as_parts(&self) -> (r: (&Vec<Block>, usize))
        ensures
            blocks_view(r.0@) == self.blocks(),
            r.1 == self@.len(),
    {
        (&self.data, self.items)
    }

    /// Returns the value at `pos`, or `None` if `pos` is past the end.
    pub fn get(&self, pos: usize) -> (r: Option<u32>)
        requires
            self.wf(),
        ensures
            r == (if pos < self@.len() { Some(self@[pos as int]) } else { None }),
    {
        if pos >= self.items {
            return None;
        }
        let mut decompressed: Vec<u32> = vec![0u32; BLOCK_LEN];
        proof { lemma_block_exists(self, pos as int); }
        self.decompress_block(Self::pos_block(pos), &mut decompressed)?;
        Some(decompressed[Self::pos_in_block(pos)])
    }
}

/// The larger of two naturals.
pub open spec fn max_nat(a: nat, b: nat) -> nat {
    if a >= b { a } else { b }
}

/// Copies `values[start..end]` into a new vector.
fn copy_range(values: &[u32], start: usize, end: usize) -> (r: Vec<u32>)
    requires
        start <= end <= values@.len(),
    ensures
        r@ == values@.subrange(start as int, end as int),
{
    let mut r: Vec<u32> = Vec::with_capacity(end - start);
    let mut i: usize = start;
    while i < end
        invariant
            start <= i <= end <= values@.len(),
            r@ == values@.subrange(start as int, i as int),
        decreases end - i,
    {
        r.push(values[i]);
        i += 1;
    }
    r
}

/// The byte count of `blocks`: one width byte and the packed bytes of each.
pub open spec fn blocks_byte_len(blocks: Seq<(u8, Seq<u8>)>) -> int
    decreases blocks.len(),
{
    if blocks.len() == 0 {
        0
    } else {
        blocks_byte_len(blocks.drop_last()) + 1 + blocks.last().1.len()
    }
}

proof fn lemma_blocks_byte_len_take(blocks: Seq<(u8, Seq<u8>)>, i: int)
    requires
        0 <= i <= blocks.len(),
    ensures
        0 <= blocks_byte_len(blocks.take(i)),
    decreases i,
{
    if i > 0 {
        assert(blocks.take(i).drop_last() =~= blocks.take(i - 1));
        lemma_blocks_byte_len_take(blocks, i - 1);
    }
}

proof fn lemma_blocks_byte_len_prefix(blocks: Seq<(u8, Seq<u8>)>, i: int)
    requires
        0 <= i <= blocks.len(),
    ensures
        blocks_byte_len(blocks.take(i)) <= blocks_byte_len(blocks),
    decreases blocks.len() - i,
{
    if i < blocks.len() {
        lemma_blocks_byte_len_prefix(blocks.drop_last(), i);
        assert(blocks.drop_last().take(i) =~= blocks.take(i));
        lemma_blocks_byte_len_take(blocks.drop_last(), blocks.len() - 1);
        assert(blocks.drop_last().take(blocks.len() - 1) =~= blocks.drop_last());
    } else {
        assert(blocks.take(i) =~= blocks);
    }
}

/// The values after pushing each of `xs` in order onto a vector holding `s`, as `push`
/// states it one value at a time.
pub open spec fn push_all(s: Seq<u32>, xs: Seq<u32>) -> Seq<u32>
    decreases xs.len(),
{
    if xs.len() == 0 {
        s
    } else {
        push_all(s, xs.drop_last()).push(xs.last())
    }
}

/// Pushing the values of `xs` one by one appends them.
proof fn lemma_push_all(s: Seq<u32>, xs: Seq<u32>)
    ensures
        push_all(s, xs) == s + xs,
    decreases xs.len(),
{
    if xs.len() > 0 {
        lemma_push_all(s, xs.drop_last());
        assert(s + xs =~= (s + xs.drop_last()).push(xs.last()));
    }
}

/// Starting from an empty vector, extending by `a` and then by `b` gives the same
/// values as pushing every value of `a`, then every value of `b`.
pub proof fn lemma_extend_matches_pushes(a: Seq<u32>, b: Seq<u32>)
    ensures
        (Seq::<u32>::empty() + a) + b == push_all(push_all(Seq::<u32>::empty(), a), b),
{
    lemma_push_all(Seq::<u32>::empty(), a);
    lemma_push_all(Seq::<u32>::empty() + a, b);
}

/// Pushing `v` and then popping returns `v` and restores the values and the length.
pub proof fn lemma_push_then_pop(before: Seq<u32>, v: u32)
    ensures
        before.push(v).len() > 0,
        before.push(v).last() == v,
        before.push(v).drop_last() == before,
        before.push(v).drop_last().len() == before.len(),
{
    assert(before.push(v).drop_last() =~= before);
}

/// Sets every slot of `block` from `from` on to zero.
fn zero_from(block: &mut Vec<u32>, from: usize)
    requires
        old(block).len() == BLOCK_LEN,
        from <= BLOCK_LEN,
    ensures
        final(block).len() == BLOCK_LEN,
        forall|j: int| 0 <= j < from ==> final(block)@[j] == old(block)@[j],
        forall|j: int| from <= j < BLOCK_LEN ==> final(block)@[j] == 0,
{
    let mut i: usize = from;
    while i < BLOCK_LEN
        invariant
            from <= i <= BLOCK_LEN,
            block.len() == BLOCK_LEN,
            forall|j: int| 0 <= j < from ==> block@[j] == old(block)@[j],
            forall|j: int| from <= j < i ==> block@[j] == 0,
        decreases BLOCK_LEN - i,
    {
        block.set(i, 0);
        i += 1;
    }
}

/// A block packed from the block's values followed by zeros is stored compactly.
proof fn lemma_block_written(v: &CVec, k: int, decoded: Seq<u32>)
    requires
        v.wf(),
        0 <= k < blocks_for(v@.len()),
        k < v.blocks().len(),
        decoded.len() == 256,
        forall|j: int| 0 <= j < 256 ==> #[trigger] decoded[j] == if 256 * k + j < v@.len() {
            v@[256 * k + j]
        } else {
            0u32
        },
        v.block_values(k) == padded(decoded),
        is_min_width(padded(decoded), v.blocks()[k].0 as nat),
    ensures
        v.block_compact(k),
{
    assert(padded(decoded) =~= decoded);
    let stored = v.real_values(k);
    assert forall|j: int| 0 <= j < 256 implies decoded[j] == padded(stored)[j] by {
        if 256 * k + j < v@.len() {
            assert(j < stored.len());
        }
    }
    assert(decoded =~= padded(stored));
}

/// A block that keeps its bytes, its role (holding values or spare) and its values stays
/// stored compactly.
proof fn lemma_block_kept(a: &CVec, ja: int, c: &CVec, j: int)
    requires
        0 <= ja < a.blocks().len(),
        0 <= j < c.blocks().len(),
        a.block_compact(ja),
        c.blocks()[j] == a.blocks()[ja],
        (ja < blocks_for(a@.len())) == (j < blocks_for(c@.len())),
        j < blocks_for(c@.len()) ==> c.real_values(j) == a.real_values(ja),
    ensures
        c.block_compact(j),
{
}

/// A sequence of values has one minimum width.
proof fn lemma_min_width_unique(s: Seq<u32>, a: nat, b: nat)
    requires
        is_min_width(s, a),
        is_min_width(s, b),
    ensures
        a == b,
{
    if a < b {
        vstd::arithmetic::power2::lemma_pow2_strictly_increases(a, (b - 1) as nat);
        if a < b - 1 {
            assert(codec::fits(s, (b - 1) as nat));
        }
    } else if b < a {
        vstd::arithmetic::power2::lemma_pow2_strictly_increases(b, (a - 1) as nat);
        if b < a - 1 {
            assert(codec::fits(s, (a - 1) as nat));
        }
    }
}

/// Block lists whose blocks have pairwise equal byte counts have equal byte counts.
proof fn lemma_blocks_byte_len_eq(x: Seq<(u8, Seq<u8>)>, y: Seq<(u8, Seq<u8>)>)
    requires
        x.len() == y.len(),
        forall|i: int| 0 <= i < x.len() ==> (#[trigger] x[i]).1.len() == y[i].1.len(),
    ensures
        blocks_byte_len(x) == blocks_byte_len(y),
    decreases x.len(),
{
    if x.len() > 0 {
        assert(x.last().1.len() == y.last().1.len());
        lemma_blocks_byte_len_eq(x.drop_last(), y.drop_last());
    }
}

/// Two compactly stored vectors with the same values and the same number of blocks
/// store every block at the same width, so they report the same `byte_len`. In
/// particular, extending and pushing the same values give the same widths.
pub proof fn lemma_compact_same_widths(v: CVec, w: CVec)
    requires
        v.wf(),
        w.wf(),
        v.compact(),
        w.compact(),
        v@ == w@,
        v.blocks().len() == w.blocks().len(),
    ensures
        forall|b: int| 0 <= b < v.blocks().len() ==> #[trigger] v.blocks()[b].0 == w.blocks()[b].0,
        v.spec_byte_len() == w.spec_byte_len(),
{
    assert forall|b: int| 0 <= b < v.blocks().len() implies #[trigger] v.blocks()[b].0 == w.blocks()[b].0 by {
        assert(v.block_compact(b));
        assert(w.block_compact(b));
        if b < blocks_for(v@.len()) {
            assert(v.real_values(b) == w.real_values(b));
            lemma_min_width_unique(padded(v.real_values(b)), v.blocks()[b].0 as nat, w.blocks()[b].0 as nat);
        }
    }
    assert forall|i: int| 0 <= i < v.blocks().len() implies (#[trigger] v.blocks()[i]).1.len() == w.blocks()[i].1.len() by {
        assert(block_ok(v.blocks()[i].0, v.blocks()[i].1));
        assert(block_ok(w.blocks()[i].0, w.blocks()[i].1));
        assert(v.blocks()[i].0 == w.blocks()[i].0);
    }
    lemma_blocks_byte_len_eq(v.blocks(), w.blocks());
}

/// In a well-formed vector, the block of every stored position exists.
proof fn lemma_block_exists(v: &CVec, pos: int)
    requires
        v.wf(),
        0 <= pos < v@.len(),
    ensures
        pos / 256 < v.blocks().len(),
{
}

} // verus!
