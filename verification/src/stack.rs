use vstd::prelude::*;

use crate::pool_iter::U8PoolAssocRevIter;
use crate::scan::StructurePosition;
use crate::u8pool::{spec_assoc_items, U8Pool};

verus! {

/// The names of a context stack, most recent first: the bytes after each entry's
/// position code, up to the first entry that holds no position code.
pub open spec fn spec_context_names(items: Seq<Option<(StructurePosition, Seq<u8>)>>) -> Seq<
    Seq<u8>,
>
    decreases items.len(),
{
    if items.len() == 0 {
        Seq::empty()
    } else {
        match items[0] {
            Some((_, name)) => seq![name] + spec_context_names(items.drop_first()),
            None => Seq::empty(),
        }
    }
}

/// Iterator over the names of a context stack (a `U8Pool` of entries pushed with
/// `push_assoc` of a `StructurePosition`), from the most recent to the oldest.
pub struct ContextIter<'a> {
    inner: U8PoolAssocRevIter<'a, StructurePosition>,
}

impl<'a> ContextIter<'a> {
    /// Whether the underlying iterator is valid.
    pub closed spec fn valid(&self) -> bool {
        self.inner.valid()
    }

    /// The entries not yet visited, most recent first.
    pub closed spec fn items(&self) -> Seq<Option<(StructurePosition, Seq<u8>)>> {
        self.inner.remaining()
    }

    /// The names that the iterator will return.
    pub open spec fn names(&self) -> Seq<Seq<u8>> {
        spec_context_names(self.items())
    }

    /// Iterator over the context names of `pool`.
    pub fn new(pool: &'a U8Pool<'a>) -> (r: Self)
        requires
            pool.wf(),
        ensures
            r.valid(),
            r.items() == spec_assoc_items::<StructurePosition>(pool@).reverse(),
    {
        Self { inner: pool.iter_assoc_rev::<StructurePosition>() }
    }

    /// The next name, or `None` at the end.
    pub fn next(&mut self) -> (r: Option<&'a [u8]>)
        requires
            old(self).valid(),
        ensures
            final(self).valid(),
            old(self).names().len() == 0 ==> r is None,
            old(self).names().len() > 0 ==> (r matches Some(s) && s@ == old(self).names()[0]
                && final(self).names() == old(self).names().drop_first()),
    {
        let ghost items = self.inner.remaining();
        match self.inner.next() {
            Some((_assoc, key_slice)) => {
                assert(items.drop_first() == self.inner.remaining());
                Some(key_slice)
            },
            None => None,
        }
    }

    /// Number of entries not yet visited.
    pub fn len(&self) -> (r: usize)
        requires
            self.valid(),
        ensures
            r == self.items().len(),
    {
        let (n, _) = self.inner.size_hint();
        n
    }
}

impl<'a> Clone for ContextIter<'a> {
    fn clone(&self) -> (r: Self)
        ensures
            r == *self,
    {
        Self { inner: self.inner.clone() }
    }
}

} // verus!
