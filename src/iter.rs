use crate::buffered::{BufCVec, BufCVecRef};
use crate::CVec;
use vstd::prelude::*;

verus! {

/// A forward cursor over the values of a borrowed `CVec`, reading through a block cache.
pub struct CVecIterRef<'a> {
    vec: BufCVecRef<'a>,
    pos: usize,
    len: usize,
}

impl<'a> CVecIterRef<'a> {
    /// The cache is consistent and the position lies within the captured length, which
    /// is the vector's length.
    pub closed spec fn wf(&self) -> bool {
        &&& self.vec.consistent()
        &&& self.pos <= self.len
        &&& self.len == self.vec.spec_vec()@.len()
    }

    /// The values still to come.
    pub closed spec fn remaining(&self) -> Seq<u32> {
        self.vec.spec_vec()@.subrange(self.pos as int, self.len as int)
    }

    /// Starts a cursor at the first value of `vec`.
    pub(crate) fn new(vec: &'a CVec) -> (r: Self)
        requires
            vec.wf(),
        ensures
            r.wf(),
            r.remaining() == vec@,
    {
        let r = Self { vec: BufCVecRef::new(vec), pos: 0, len: vec.len() };
        assert(r.remaining() =~= vec@);
        r
    }

    /// Returns the next value, or `None` once every value has been returned.
    pub fn next(&mut self) -> (r: Option<u32>)
        requires
            old(self).wf(),
        ensures
            final(self).wf(),
            old(self).remaining().len() == 0 ==> r.is_none() && final(self).remaining() == old(self).remaining(),
            old(self).remaining().len() > 0 ==> {
                &&& r == Some(old(self).remaining()[0])
                &&& final(self).remaining() == old(self).remaining().drop_first()
            },
    {
        let val = *self.vec.get_buffered(self.pos)?;
        self.pos += 1;
        assert(self.remaining() =~= old(self).remaining().drop_first());
        Some(val)
    }

    /// Returns the number of values still to come.
    pub fn len(&self) -> (r: usize)
        requires
            self.wf(),
        ensures
            r == self.remaining().len(),
    {
        self.len - self.pos
    }
}

/// A forward cursor over the values of an owned `CVec`, reading through a block cache.
pub struct CVecIter {
    vec: BufCVec,
    pos: usize,
    len: usize,
}

impl CVecIter {
    /// The cache is consistent and the position lies within the captured length, which
    /// is the vector's length.
    pub closed spec fn wf(&self) -> bool {
        &&& self.vec.consistent()
        &&& self.pos <= self.len
        &&& self.len == self.vec.spec_vec()@.len()
    }

    /// The values still to come.
    pub closed spec fn remaining(&self) -> Seq<u32> {
        self.vec.spec_vec()@.subrange(self.pos as int, self.len as int)
    }

    /// Returns the next value, or `None` once every value has been returned.
    pub fn next(&mut self) -> (r: Option<u32>)
        requires
            old(self).wf(),
        ensures
            final(self).wf(),
            old(self).remaining().len() == 0 ==> r.is_none() && final(self).remaining() == old(self).remaining(),
            old(self).remaining().len() > 0 ==> {
                &&& r == Some(old(self).remaining()[0])
                &&& final(self).remaining() == old(self).remaining().drop_first()
            },
    {
        let val = *self.vec.get_buffered(self.pos)?;
        self.pos += 1;
        assert(self.remaining() =~= old(self).remaining().drop_first());
        Some(val)
    }

    /// Returns the number of values still to come.
    pub fn len(&self) -> (r: usize)
        requires
            self.wf(),
        ensures
            r == self.remaining().len(),
    {
        self.len - self.pos
    }
}

impl CVec {
    /// Returns a cursor over the vector's values that borrows the vector.
    pub fn iter(&self) -> (r: CVecIterRef<'_>)
        requires
            self.wf(),
        ensures
            r.wf(),
            r.remaining() == self@,
    {
        CVecIterRef::new(self)
    }

    /// Returns a cursor over the vector's values that owns the vector.
    pub fn into_iter(self) -> (r: CVecIter)
        requires
            self.wf(),
        ensures
            r.wf(),
            r.remaining() == self@,
    {
        let len = self.len();
        let r = CVecIter { len, vec: BufCVec::new(self), pos: 0 };
        assert(r.remaining() =~= self@);
        r
    }

    /// Returns the values of the vector, decoded, as a `Vec<u32>`.
    pub fn as_vec(&self) -> (r: Vec<u32>)
        requires
            self.wf(),
        ensures
            r@ == self@,
    {
        let mut out: Vec<u32> = Vec::with_capacity(self.len());
        let mut it = self.iter();
        while it.len() > 0
            invariant
                it.wf(),
                out@ + it.remaining() == self@,
            decreases it.remaining().len(),
        {
            match it.next() {
                Some(v) => {
                    out.push(v);
                    assert(out@ + it.remaining() =~= self@);
                },
                None => {},
            }
        }
        assert(out@ =~= out@ + it.remaining());
        out
    }

    /// Builds a vector holding `values`, in order.
    pub fn from_slice(values: &[u32]) -> (r: CVec)
        requires
            values@.len() + crate::BLOCK_LEN <= usize::MAX,
        ensures
            r.wf(),
            r@ == values@,
    {
        let mut new = CVec::new();
        new.extend(values);
        assert(Seq::<u32>::empty() + values@ =~= values@);
        new
    }
}

} // verus!
