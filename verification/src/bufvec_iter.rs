use vstd::prelude::*;

use crate::bufvec::BufVec;
use crate::u8pool::spec_pairs;

verus! {

/// Iterator over the slices of a `BufVec`, in order.
pub struct BufVecIter<'a> {
    bufvec: &'a BufVec<'a>,
    current: usize,
}

impl<'a> BufVecIter<'a> {
    /// Whether the vector is well formed and the position within it.
    pub closed spec fn valid(&self) -> bool {
        &&& self.bufvec.wf()
        &&& self.current <= self.bufvec@.len()
    }

    /// The slices not yet returned.
    pub closed spec fn remaining(&self) -> Seq<Seq<u8>> {
        self.bufvec@.subrange(self.current as int, self.bufvec@.len() as int)
    }

    pub(crate) fn new(bufvec: &'a BufVec<'a>) -> (r: Self)
        requires
            bufvec.wf(),
        ensures
            r.valid(),
            r.remaining() == bufvec@,
    {
        let r = BufVecIter { bufvec, current: 0 };
        assert(r.remaining() =~= bufvec@);
        r
    }

    /// The next slice, or `None` at the end.
    pub fn next(&mut self) -> (r: Option<&'a [u8]>)
        requires
            old(self).valid(),
        ensures
            final(self).valid(),
            old(self).remaining().len() == 0 ==> r is None && final(self).remaining() == old(
                self,
            ).remaining(),
            old(self).remaining().len() > 0 ==> (r matches Some(s) && s@ == old(self).remaining()[0]
                && final(self).remaining() == old(self).remaining().drop_first()),
    {
        if self.current < self.bufvec.len() {
            let result = self.bufvec.get(self.current);
            self.current = self.current + 1;
            assert(self.remaining() =~= old(self).remaining().drop_first());
            Some(result)
        } else {
            None
        }
    }

    /// The exact number of slices left, as lower and upper bound.
    pub fn size_hint(&self) -> (r: (usize, Option<usize>))
        requires
            self.valid(),
        ensures
            r.0 == self.remaining().len(),
            r.1 == Some(r.0),
    {
        let remaining = self.bufvec.len() - self.current;
        (remaining, Some(remaining))
    }
}

/// Iterator over the key/value pairs of a `BufVec`.
pub struct BufVecPairIter<'a> {
    bufvec: &'a BufVec<'a>,
    current_pair: usize,
}

impl<'a> BufVecPairIter<'a> {
    /// Whether the vector is well formed and the position within its pairs.
    pub closed spec fn valid(&self) -> bool {
        &&& self.bufvec.wf()
        &&& self.current_pair <= (self.bufvec@.len() + 1) / 2
    }

    /// The pairs not yet returned.
    pub closed spec fn remaining(&self) -> Seq<(Seq<u8>, Option<Seq<u8>>)> {
        spec_pairs(self.bufvec@).subrange(
            self.current_pair as int,
            spec_pairs(self.bufvec@).len() as int,
        )
    }

    pub(crate) fn new(bufvec: &'a BufVec<'a>) -> (r: Self)
        requires
            bufvec.wf(),
        ensures
            r.valid(),
            r.remaining() == spec_pairs(bufvec@),
    {
        let r = BufVecPairIter { bufvec, current_pair: 0 };
        assert(r.remaining() =~= spec_pairs(bufvec@));
        r
    }

    /// The next key and its value, if any; `None` at the end.
    pub fn next(&mut self) -> (r: Option<(&'a [u8], Option<&'a [u8]>)>)
        requires
            old(self).valid(),
        ensures
            final(self).valid(),
            old(self).remaining().len() == 0 ==> r is None,
            old(self).remaining().len() > 0 ==> (r matches Some((k, v)) && k@ == old(
                self,
            ).remaining()[0].0 && (v is Some <==> old(self).remaining()[0].1 is Some) && (v matches Some(
                vv,
            ) ==> old(self).remaining()[0].1 == Some(vv@)) && final(self).remaining() == old(
                self,
            ).remaining().drop_first()),
    {
        proof {
            self.bufvec.lemma_len_bound();
        }
        let len = self.bufvec.len();
        let key_index = self.current_pair * 2;
        if key_index >= len {
            return None;
        }
        let key = self.bufvec.get(key_index);
        let value = if key_index + 1 < len {
            Some(self.bufvec.get(key_index + 1))
        } else {
            None
        };
        self.current_pair = self.current_pair + 1;
        assert(self.remaining() =~= old(self).remaining().drop_first());
        Some((key, value))
    }

    /// The exact number of pairs left, as lower and upper bound.
    pub fn size_hint(&self) -> (r: (usize, Option<usize>))
        requires
            self.valid(),
        ensures
            r.0 == self.remaining().len(),
            r.1 == Some(r.0),
    {
        let len = self.bufvec.len();
        let remaining_pairs = if len == 0 {
            0
        } else {
            len / 2 + len % 2 - self.current_pair
        };
        (remaining_pairs, Some(remaining_pairs))
    }
}

} // verus!
