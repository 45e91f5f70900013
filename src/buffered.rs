use crate::codec::unpacked;
use crate::{block_ok, CVec};
use vstd::prelude::*;

verus! {

/// Buffered reading of a `CVec`: the most recently decoded block is kept, so that reads
/// within that block need no decoding.
pub trait BufferedCVec {
    /// The vector that is read.
    spec fn spec_vec(&self) -> CVec;

    /// The vector is well formed and the cache is well formed.
    spec fn consistent(&self) -> bool;

    /// The cache.
    spec fn spec_buffer(&self) -> Buffer;

    /// Returns the cache itself. Whatever is written through it becomes the cache; the
    /// vector stays as it was.
    fn get_buffer(&mut self) -> (r: &mut Buffer)
        ensures
            *r == old(self).spec_buffer(),
            final(self).spec_buffer() == *final(r),
            final(self).spec_vec() == old(self).spec_vec(),
            final(self).consistent() == (final(self).spec_vec().wf() && final(r).wf()),
    ;

    /// Returns the vector that is read.
    fn get_vec(&self) -> (r: &CVec)
        requires
            self.consistent(),
        ensures
            *r == self.spec_vec(),
            r.wf(),
    ;

    /// Like `CVec::get`, but returns a reference and uses the cached block if it holds
    /// `index`.
    fn get_buffered(&mut self, index: usize) -> (r: Option<&u32>)
        requires
            old(self).consistent(),
        ensures
            final(self).consistent(),
            final(self).spec_vec() == old(self).spec_vec(),
            r == if index < old(self).spec_vec()@.len() {
                Some(&old(self).spec_vec()@[index as int])
            } else {
                None
            },
    ;
}

/// A buffer for reading a `CVec` sequentially: one decoded block, its index, and a copy
/// of the width and packed bytes it was decoded from. The copy lets a read tell whether
/// the vector's block is still the one in the buffer; when it is not (another vector, or
/// the vector changed), the block is decoded again.
#[derive(Debug, Clone)]
pub struct Buffer {
    data: Vec<u32>,
    buf_block: Option<usize>,
    bits: u8,
    packed: Vec<u8>,
}

impl Buffer {
    /// The buffer holds nothing, or the decoded form of its copied width and bytes.
    pub closed spec fn wf(&self) -> bool {
        &&& self.data.len() <= crate::BLOCK_LEN
        &&& self.buf_block is Some ==> {
            &&& block_ok(self.bits, self.packed@)
            &&& self.data@ == unpacked(self.packed@, self.bits)
            &&& self.data.len() == crate::BLOCK_LEN
        }
    }

    /// Creates an empty buffer.
    pub fn new() -> (r: Self)
        ensures
            r.wf(),
    {
        Self { data: vec![], buf_block: None, bits: 0, packed: vec![] }
    }

    /// Tells whether the buffer was decoded from the very width and bytes of block `b`
    /// of `vec`.
    fn holds(&self, vec: &CVec, b: usize) -> (r: bool)
        requires
            b < vec.blocks().len(),
        ensures
            r == (self.bits == vec.blocks()[b as int].0 && self.packed@ == vec.blocks()[b as int].1),
    {
        let block = &vec.data[b];
        assert(vec.blocks()[b as int] == (block.0, block.1@));
        if self.bits != block.0 || self.packed.len() != block.1.len() {
            return false;
        }
        let mut i: usize = 0;
        while i < self.packed.len()
            invariant
                i <= self.packed@.len() == block.1@.len(),
                forall|j: int| 0 <= j < i ==> self.packed@[j] == block.1@[j],
                b < vec.blocks().len(),
                vec.blocks()[b as int] == (block.0, block.1@),
                self.bits == block.0,
            decreases self.packed@.len() - i,
        {
            if self.packed[i] != block.1[i] {
                assert(self.packed@[i as int] != block.1@[i as int]);
                return false;
            }
            i += 1;
        }
        assert(self.packed@ =~= block.1@);
        true
    }

    /// Reads the value at `index` of `vec`. The block holding it is decoded unless the
    /// buffer already holds that block's decoded form. Returns `None` if `index` is past
    /// the end.
    pub fn read_buffered(&mut self, vec: &CVec, index: usize) -> (r: Option<&u32>)
        requires
            vec.wf(),
            old(self).wf(),
        ensures
            final(self).wf(),
            r == if index < vec@.len() { Some(&vec@[index as int]) } else { None },
    {
        if index >= vec.len() {
            return None;
        }
        let block_index = CVec::pos_block(index);
        proof { crate::lemma_block_exists(vec, index as int); }
        let cached = match self.buf_block {
            Some(b) => b == block_index && self.holds(vec, block_index),
            None => false,
        };
        if !cached {
            // decode the block into the buffer and keep what it was decoded from
            vec.decompress_block(block_index, &mut self.data);
            let block = &vec.data[block_index];
            self.bits = block.0;
            self.packed = vstd::slice::slice_to_vec(block.1.as_slice());
            self.buf_block = Some(block_index);
        }
        Some(&self.data[CVec::pos_in_block(index)])
    }
}

/// A wrapper around an owned `CVec`, which reads nearby indices faster.
#[derive(Debug, Clone)]
pub struct BufCVec {
    vec: CVec,
    buf: Buffer,
}

impl BufCVec {
    /// The vector that is read.
    pub closed spec fn spec_vec(&self) -> CVec {
        self.vec
    }

    /// The vector is well formed and the buffer holds a decoded block or none.
    pub closed spec fn consistent(&self) -> bool {
        self.vec.wf() && self.buf.wf()
    }

    /// The cache.
    pub closed spec fn spec_buffer(&self) -> Buffer {
        self.buf
    }

    /// Creates a `BufCVec` that owns `vec`.
    pub fn new(vec: CVec) -> (r: Self)
        requires
            vec.wf(),
        ensures
            r.consistent(),
            r.spec_vec() == vec,
    {
        Self { vec, buf: Buffer::new() }
    }

    /// Reads the value at `index`, or `None` if `index` is past the end.
    pub fn get_buffered(&mut self, index: usize) -> (r: Option<&u32>)
        requires
            old(self).consistent(),
        ensures
            final(self).consistent(),
            final(self).spec_vec() == old(self).spec_vec(),
            r == if index < old(self).spec_vec()@.len() {
                Some(&old(self).spec_vec()@[index as int])
            } else {
                None
            },
    {
        self.buf.read_buffered(&self.vec, index)
    }
}

/// A wrapper around a borrowed `CVec`, which reads nearby indices faster.
#[derive(Debug, Clone)]
pub struct BufCVecRef<'a> {
    vec: &'a CVec,
    buf: Buffer,
}

impl<'a> BufCVecRef<'a> {
    /// The vector that is read.
    pub closed spec fn spec_vec(&self) -> CVec {
        *self.vec
    }

    /// The vector is well formed and the buffer holds a decoded block or none.
    pub closed spec fn consistent(&self) -> bool {
        self.vec.wf() && self.buf.wf()
    }

    /// The cache.
    pub closed spec fn spec_buffer(&self) -> Buffer {
        self.buf
    }

    /// Creates a `BufCVecRef` that reads `vec`.
    pub fn new(vec: &'a CVec) -> (r: Self)
        requires
            vec.wf(),
        ensures
            r.consistent(),
            r.spec_vec() == *vec,
    {
        Self { vec, buf: Buffer::new() }
    }

    /// Reads the value at `index`, or `None` if `index` is past the end.
    pub fn get_buffered(&mut self, index: usize) -> (r: Option<&u32>)
        requires
            old(self).consistent(),
        ensures
            final(self).consistent(),
            final(self).spec_vec() == old(self).spec_vec(),
            r == if index < old(self).spec_vec()@.len() {
                Some(&old(self).spec_vec()@[index as int])
            } else {
                None
            },
    {
        self.buf.read_buffered(self.vec, index)
    }
}

impl From<CVec> for BufCVec {
    fn from(cvec: CVec) -> (r: Self) {
        Self { vec: cvec, buf: Buffer::new() }
    }
}

impl vstd::std_specs::convert::FromSpecImpl<CVec> for BufCVec {
    open spec fn obeys_from_spec() -> bool {
        false
    }

    open spec fn from_spec(cvec: CVec) -> Self {
        arbitrary()
    }
}

impl<'a> From<&'a CVec> for BufCVecRef<'a> {
    fn from(cvec: &'a CVec) -> (r: Self) {
        Self { vec: cvec, buf: Buffer::new() }
    }
}

impl<'a> vstd::std_specs::convert::FromSpecImpl<&'a CVec> for BufCVecRef<'a> {
    open spec fn obeys_from_spec() -> bool {
        false
    }

    open spec fn from_spec(cvec: &'a CVec) -> Self {
        arbitrary()
    }
}

impl BufferedCVec for BufCVec {
    open spec fn spec_vec(&self) -> CVec {
        BufCVec::spec_vec(self)
    }

    open spec fn consistent(&self) -> bool {
        BufCVec::consistent(self)
    }

    open spec fn spec_buffer(&self) -> Buffer {
        BufCVec::spec_buffer(self)
    }

    fn get_buffer(&mut self) -> (r: &mut Buffer) {
        &mut self.buf
    }

    fn get_vec(&self) -> (r: &CVec) {
        &self.vec
    }

    fn get_buffered(&mut self, index: usize) -> (r: Option<&u32>) {
        BufCVec::get_buffered(self, index)
    }
}

impl<'a> BufferedCVec for BufCVecRef<'a> {
    open spec fn spec_vec(&self) -> CVec {
        BufCVecRef::spec_vec(self)
    }

    open spec fn consistent(&self) -> bool {
        BufCVecRef::consistent(self)
    }

    open spec fn spec_buffer(&self) -> Buffer {
        BufCVecRef::spec_buffer(self)
    }

    fn get_buffer(&mut self) -> (r: &mut Buffer) {
        &mut self.buf
    }

    fn get_vec(&self) -> (r: &CVec) {
        self.vec
    }

    fn get_buffered(&mut self, index: usize) -> (r: Option<&u32>) {
        BufCVecRef::get_buffered(self, index)
    }
}

} // verus!
