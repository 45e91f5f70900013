//! Equality between a `CVec` and plain lists of `u32`.
use crate::CVec;
use vstd::prelude::*;

verus! {

impl CVec {
    /// Tells whether the vector holds exactly the values of `other`, in order.
    pub fn eq_slice(&self, other: &[u32]) -> (r: bool)
        requires
            self.wf(),
        ensures
            r == (self@ == other@),
    {
        if self.len() != other.len() {
            return false;
        }
        let mut it = self.iter();
        let mut i: usize = 0;
        while i < other.len()
            invariant
                it.wf(),
                i <= other@.len() == self@.len(),
                it.remaining() == self@.subrange(i as int, self@.len() as int),
                self@.subrange(0, i as int) == other@.subrange(0, i as int),
            decreases other@.len() - i,
        {
            let v = it.next();
            if v != Some(other[i]) {
                assert(self@[i as int] != other@[i as int]);
                return false;
            }
            assert(self@.subrange(0, i + 1) =~= self@.subrange(0, i as int).push(self@[i as int]));
            assert(other@.subrange(0, i + 1) =~= other@.subrange(0, i as int).push(other@[i as int]));
            assert(it.remaining() =~= self@.subrange(i + 1, self@.len() as int));
            i += 1;
        }
        assert(self@ =~= self@.subrange(0, i as int));
        assert(other@ =~= other@.subrange(0, i as int));
        true
    }
}

impl PartialEq for CVec {
    fn eq(&self, other: &CVec) -> (r: bool) {
        if !self.check_wf() || !other.check_wf() {
            return false;
        }
        let values = other.as_vec();
        self.eq_slice(values.as_slice())
    }
}

impl vstd::std_specs::cmp::PartialEqSpecImpl for CVec {
    open spec fn obeys_eq_spec() -> bool {
        true
    }

    open spec fn eq_spec(&self, other: &CVec) -> bool {
        self.wf() && other.wf() && self@ == other@
    }
}

impl PartialEq<Vec<u32>> for CVec {
    fn eq(&self, other: &Vec<u32>) -> (r: bool) {
        self.check_wf() && self.eq_slice(other.as_slice())
    }
}

impl vstd::std_specs::cmp::PartialEqSpecImpl<Vec<u32>> for CVec {
    open spec fn obeys_eq_spec() -> bool {
        true
    }

    open spec fn eq_spec(&self, other: &Vec<u32>) -> bool {
        self.wf() && self@ == other@
    }
}

impl<'a> PartialEq<&'a [u32]> for CVec {
    fn eq(&self, other: &&'a [u32]) -> (r: bool) {
        self.check_wf() && self.eq_slice(*other)
    }
}

impl<'a> vstd::std_specs::cmp::PartialEqSpecImpl<&'a [u32]> for CVec {
    open spec fn obeys_eq_spec() -> bool {
        true
    }

    open spec fn eq_spec(&self, other: &&'a [u32]) -> bool {
        self.wf() && self@ == other@
    }
}

impl PartialEq<CVec> for Vec<u32> {
    fn eq(&self, other: &CVec) -> (r: bool) {
        other.check_wf() && other.eq_slice(self.as_slice())
    }
}

impl vstd::std_specs::cmp::PartialEqSpecImpl<CVec> for Vec<u32> {
    open spec fn obeys_eq_spec() -> bool {
        true
    }

    open spec fn eq_spec(&self, other: &CVec) -> bool {
        other.wf() && other@ == self@
    }
}

} // verus!
