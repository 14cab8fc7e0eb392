use vstd::prelude::*;

use crate::assoc::AssocValue;
use crate::slice_descriptor::{SliceDescriptorIter, SliceDescriptorRevIter};
use crate::u8pool::{spec_assoc_items, spec_get_assoc, spec_pairs, U8Pool};

verus! {

/// The byte ranges of `data` that a sequence of descriptors points to.
pub open spec fn spec_ranges(data: Seq<u8>, descs: Seq<(usize, usize)>) -> Seq<Seq<u8>> {
    Seq::new(descs.len(), |k: int| data.subrange(descs[k].0 as int, descs[k].0 + descs[k].1))
}

/// Every descriptor of `descs` points inside `data`.
pub open spec fn spec_ranges_in(data: Seq<u8>, descs: Seq<(usize, usize)>) -> bool {
    forall|k: int| 0 <= k < descs.len() ==> #[trigger] descs[k].0 + descs[k].1 <= data.len()
}

/// Iterator over the slices of a `U8Pool`, bottom to top.
#[derive(Clone, Copy)]
pub struct U8PoolIter<'a> {
    data: &'a [u8],
    descriptor_iter: SliceDescriptorIter<'a>,
}

impl<'a> U8PoolIter<'a> {
    /// Whether every remaining descriptor points inside the data area.
    pub closed spec fn valid(&self) -> bool {
        &&& self.descriptor_iter.valid()
        &&& spec_ranges_in(self.data@, self.descriptor_iter.remaining())
    }

    /// The slices not yet returned.
    pub closed spec fn remaining(&self) -> Seq<Seq<u8>> {
        spec_ranges(self.data@, self.descriptor_iter.remaining())
    }

    pub(crate) fn new(data: &'a [u8], descriptor_iter: SliceDescriptorIter<'a>) -> (r: Self)
        requires
            descriptor_iter.valid(),
            spec_ranges_in(data@, descriptor_iter.remaining()),
        ensures
            r.valid(),
            r.remaining() == spec_ranges(data@, descriptor_iter.remaining()),
    {
        Self { data, descriptor_iter }
    }

    pub fn next(&mut self) -> (r: Option<&'a [u8]>)
        requires
            old(self).valid(),
        ensures
            final(self).valid(),
            old(self).remaining().len() == 0 ==> r is None && final(self).remaining() == old(self).remaining(),
            old(self).remaining().len() > 0 ==> (r matches Some(s) && s@ == old(self).remaining()[0]
                && final(self).remaining() == old(self).remaining().drop_first()),
    {
        let ghost before = self.descriptor_iter.remaining();
        match self.descriptor_iter.next() {
            None => None,
            Some((start, length)) => {
                assert(before[0] == (start, length));
                assert(self.descriptor_iter.remaining() =~= before.drop_first());
                assert(spec_ranges_in(self.data@, self.descriptor_iter.remaining())) by {
                    assert forall|k: int| 0 <= k < self.descriptor_iter.remaining().len() implies
                        #[trigger] self.descriptor_iter.remaining()[k].0 + self.descriptor_iter.remaining()[k].1
                        <= self.data@.len() by {
                        assert(self.descriptor_iter.remaining()[k] == before[k + 1]);
                    }
                }
                assert(self.remaining() =~= old(self).remaining().drop_first());
                let len = self.data.len();
                if length <= len && start <= len - length {
                    Some(&self.data[start..start + length])
                } else {
                    None
                }
            },
        }
    }

    pub fn size_hint(&self) -> (r: (usize, Option<usize>))
        requires
            self.valid(),
        ensures
            r.0 == self.remaining().len(),
            r.1 == Some(r.0),
    {
        self.descriptor_iter.size_hint()
    }
}

/// Reverse iterator over the slices of a `U8Pool`, top to bottom.
#[derive(Clone, Copy)]
pub struct U8PoolRevIter<'a> {
    data: &'a [u8],
    descriptor_iter: SliceDescriptorRevIter<'a>,
}

impl<'a> U8PoolRevIter<'a> {
    /// Whether every remaining descriptor points inside the data area.
    pub closed spec fn valid(&self) -> bool {
        &&& self.descriptor_iter.valid()
        &&& spec_ranges_in(self.data@, self.descriptor_iter.remaining())
    }

    /// The slices not yet returned, in the order they will be returned.
    pub closed spec fn remaining(&self) -> Seq<Seq<u8>> {
        spec_ranges(self.data@, self.descriptor_iter.remaining())
    }

    pub(crate) fn new(data: &'a [u8], descriptor_iter: SliceDescriptorRevIter<'a>) -> (r: Self)
        requires
            descriptor_iter.valid(),
            spec_ranges_in(data@, descriptor_iter.remaining()),
        ensures
            r.valid(),
            r.remaining() == spec_ranges(data@, descriptor_iter.remaining()),
    {
        Self { data, descriptor_iter }
    }

    pub fn next(&mut self) -> (r: Option<&'a [u8]>)
        requires
            old(self).valid(),
        ensures
            final(self).valid(),
            old(self).remaining().len() == 0 ==> r is None && final(self).remaining() == old(self).remaining(),
            old(self).remaining().len() > 0 ==> (r matches Some(s) && s@ == old(self).remaining()[0]
                && final(self).remaining() == old(self).remaining().drop_first()),
    {
        let ghost before = self.descriptor_iter.remaining();
        match self.descriptor_iter.next() {
            None => None,
            Some((start, length)) => {
                assert(before[0] == (start, length));
                assert(self.descriptor_iter.remaining() =~= before.drop_first());
                assert(spec_ranges_in(self.data@, self.descriptor_iter.remaining())) by {
                    assert forall|k: int| 0 <= k < self.descriptor_iter.remaining().len() implies
                        #[trigger] self.descriptor_iter.remaining()[k].0 + self.descriptor_iter.remaining()[k].1
                        <= self.data@.len() by {
                        assert(self.descriptor_iter.remaining()[k] == before[k + 1]);
                    }
                }
                assert(self.remaining() =~= old(self).remaining().drop_first());
                let len = self.data.len();
                if length <= len && start <= len - length {
                    Some(&self.data[start..start + length])
                } else {
                    None
                }
            },
        }
    }

    pub fn size_hint(&self) -> (r: (usize, Option<usize>))
        requires
            self.valid(),
        ensures
            r.0 == self.remaining().len(),
            r.1 == Some(r.0),
    {
        self.descriptor_iter.size_hint()
    }
}

/// Dropping the first two slices drops the first pair.
proof fn lemma_pairs_skip2(items: Seq<Seq<u8>>)
    requires
        items.len() >= 2,
    ensures
        spec_pairs(items.skip(2)) == spec_pairs(items).drop_first(),
{
    assert(spec_pairs(items.skip(2)) =~= spec_pairs(items).drop_first());
}

/// Iterator over the key/value pairs of a `U8Pool`: each element at an even index
/// with the element after it, if there is one.
#[derive(Clone, Copy)]
pub struct U8PoolPairIter<'a> {
    iter: U8PoolIter<'a>,
}

impl<'a> U8PoolPairIter<'a> {
    /// Whether the underlying iterator is valid and at an even position.
    pub closed spec fn valid(&self) -> bool {
        self.iter.valid()
    }

    /// The pairs not yet returned.
    pub closed spec fn remaining(&self) -> Seq<(Seq<u8>, Option<Seq<u8>>)> {
        spec_pairs(self.iter.remaining())
    }

    pub(crate) fn new(iter: U8PoolIter<'a>) -> (r: Self)
        requires
            iter.valid(),
        ensures
            r.valid(),
            r.remaining() == spec_pairs(iter.remaining()),
    {
        Self { iter }
    }

    pub fn next(&mut self) -> (r: Option<(&'a [u8], Option<&'a [u8]>)>)
        requires
            old(self).valid(),
        ensures
            final(self).valid(),
            old(self).remaining().len() == 0 ==> r is None,
            old(self).remaining().len() > 0 ==> (r matches Some((k, v)) && k@ == old(self).remaining()[0].0 && (v is Some <==> old(self).remaining()[0].1 is Some) && (v
                matches Some(vv) ==> old(self).remaining()[0].1 == Some(vv@)) && final(self).remaining()
                == old(self).remaining().drop_first()),
    {
        let ghost items = self.iter.remaining();
        let key = match self.iter.next() {
            Some(k) => k,
            None => {
                assert(spec_pairs(items).len() == 0);
                return None;
            },
        };
        let value = self.iter.next();
        proof {
            if items.len() >= 2 {
                lemma_pairs_skip2(items);
                assert(items.drop_first().drop_first() =~= items.skip(2));
            } else {
                assert(spec_pairs(self.iter.remaining()) =~= spec_pairs(items).drop_first());
            }
        }
        Some((key, value))
    }

    pub fn size_hint(&self) -> (r: (usize, Option<usize>))
        requires
            self.valid(),
        ensures
            r.0 == self.remaining().len(),
            r.1 == Some(r.0),
    {
        let (n, _) = self.iter.size_hint();
        assert(n == self.iter.remaining().len());
        assert(self.remaining().len() == (self.iter.remaining().len() + 1) / 2);
        let pairs = if n % 2 == 1 {
            n / 2 + 1
        } else {
            n / 2
        };
        assert(pairs == (n + 1) / 2) by (nonlinear_arith)
            requires
                n % 2 == 1 ==> pairs == n / 2 + 1,
                n % 2 == 0 ==> pairs == n / 2,
        ;
        (pairs, Some(pairs))
    }
}

/// Iterator over the decoded values and following slices of a `U8Pool`, bottom to top.
pub struct U8PoolAssocIter<'a, T> {
    pool: &'a U8Pool<'a>,
    current_index: usize,
    _phantom: core::marker::PhantomData<T>,
}

impl<'a, T> Clone for U8PoolAssocIter<'a, T> {
    fn clone(&self) -> (r: Self)
        ensures
            r == *self,
    {
        Self { pool: self.pool, current_index: self.current_index, _phantom: core::marker::PhantomData }
    }
}

impl<'a, T: AssocValue> U8PoolAssocIter<'a, T> {
    /// Whether the pool is well formed and the position within it.
    pub closed spec fn valid(&self) -> bool {
        self.pool.wf() && self.current_index <= self.pool@.len()
    }

    /// The items not yet returned.
    pub closed spec fn remaining(&self) -> Seq<Option<(T, Seq<u8>)>> {
        spec_assoc_items::<T>(self.pool@).skip(self.current_index as int)
    }

    pub(crate) fn new(pool: &'a U8Pool<'a>) -> (r: Self)
        requires
            pool.wf(),
        ensures
            r.valid(),
            r.remaining() == spec_assoc_items::<T>(pool@),
    {
        let it = Self { pool, current_index: 0, _phantom: core::marker::PhantomData };
        assert(it.remaining() =~= spec_assoc_items::<T>(pool@));
        it
    }

    pub fn next(&mut self) -> (r: Option<(T, &'a [u8])>)
        requires
            old(self).valid(),
        ensures
            final(self).valid(),
            old(self).remaining().len() == 0 ==> r is None,
            old(self).remaining().len() > 0 ==> (r is Some <==> old(self).remaining()[0] is Some)
                && final(self).remaining() == old(self).remaining().drop_first(),
            r matches Some((v, s)) ==> old(self).remaining().len() > 0 && old(self).remaining()[0]
                == Some((v, s@)),
    {
        if self.current_index >= self.pool.len() {
            return None;
        }
        let result = self.pool.get_assoc::<T>(self.current_index);
        self.current_index = self.current_index + 1;
        assert(self.remaining() =~= old(self).remaining().drop_first());
        result
    }

    pub fn size_hint(&self) -> (r: (usize, Option<usize>))
        requires
            self.valid(),
        ensures
            r.0 == self.remaining().len(),
            r.1 == Some(r.0),
    {
        let remaining = self.pool.len() - self.current_index;
        (remaining, Some(remaining))
    }
}

/// Iterator over the decoded values and following slices of a `U8Pool`, top to bottom.
pub struct U8PoolAssocRevIter<'a, T> {
    pool: &'a U8Pool<'a>,
    current_index: usize,
    _phantom: core::marker::PhantomData<T>,
}

impl<'a, T> Clone for U8PoolAssocRevIter<'a, T> {
    fn clone(&self) -> (r: Self)
        ensures
            r == *self,
    {
        Self { pool: self.pool, current_index: self.current_index, _phantom: core::marker::PhantomData }
    }
}

impl<'a, T: AssocValue> U8PoolAssocRevIter<'a, T> {
    /// Whether the pool is well formed and the position within it.
    pub closed spec fn valid(&self) -> bool {
        self.pool.wf() && self.current_index <= self.pool@.len()
    }

    /// The items not yet returned, in the order they will be returned.
    pub closed spec fn remaining(&self) -> Seq<Option<(T, Seq<u8>)>> {
        spec_assoc_items::<T>(self.pool@).take(self.current_index as int).reverse()
    }

    pub(crate) fn new(pool: &'a U8Pool<'a>) -> (r: Self)
        requires
            pool.wf(),
        ensures
            r.valid(),
            r.remaining() == spec_assoc_items::<T>(pool@).reverse(),
    {
        let it = Self { pool, current_index: pool.len(), _phantom: core::marker::PhantomData };
        assert(spec_assoc_items::<T>(pool@).take(pool@.len() as int) =~= spec_assoc_items::<T>(pool@));
        it
    }

    pub fn next(&mut self) -> (r: Option<(T, &'a [u8])>)
        requires
            old(self).valid(),
        ensures
            final(self).valid(),
            old(self).remaining().len() == 0 ==> r is None,
            old(self).remaining().len() > 0 ==> (r is Some <==> old(self).remaining()[0] is Some)
                && final(self).remaining() == old(self).remaining().drop_first(),
            r matches Some((v, s)) ==> old(self).remaining().len() > 0 && old(self).remaining()[0]
                == Some((v, s@)),
    {
        if self.current_index == 0 {
            return None;
        }
        self.current_index = self.current_index - 1;
        assert(self.remaining() =~= old(self).remaining().drop_first());
        self.pool.get_assoc::<T>(self.current_index)
    }

    pub fn size_hint(&self) -> (r: (usize, Option<usize>))
        requires
            self.valid(),
        ensures
            r.0 == self.remaining().len(),
            r.1 == Some(r.0),
    {
        (self.current_index, Some(self.current_index))
    }
}

} // verus!
