use vstd::prelude::*;

use crate::assoc::AssocValue;
use crate::pool_error::U8PoolError;
use crate::pool_iter::{U8PoolAssocIter, U8PoolAssocRevIter, U8PoolIter, U8PoolPairIter, U8PoolRevIter};
use crate::slice_descriptor::{SliceDescriptor, DESCRIPTOR_FIELD_MAX, SLICE_DESCRIPTOR_SIZE};

verus! {

/// Number of slices of a pool made by `with_default_max_slices`.
pub const DEFAULT_MAX_SLICES: usize = 32;

/// `cur` rounded up to a multiple of `align`.
pub open spec fn round_up(cur: int, align: int) -> int {
    if cur % align == 0 {
        cur
    } else {
        cur + (align - cur % align)
    }
}

/// The value stored in front of entry `index` of `items`, decoded as a `T`, and the
/// bytes that follow it; `None` if the index is out of bounds or the entry is shorter than a `T`.
pub open spec fn spec_get_assoc<T: AssocValue>(items: Seq<Seq<u8>>, index: int) -> Option<(T, Seq<u8>)> {
    if 0 <= index < items.len() && items[index].len() >= T::spec_size() {
        Some(
            (
                T::spec_decode(items[index].subrange(0, T::spec_size() as int)),
                items[index].subrange(T::spec_size() as int, items[index].len() as int),
            ),
        )
    } else {
        None
    }
}

/// For each entry, `spec_get_assoc` of it.
pub open spec fn spec_assoc_items<T: AssocValue>(items: Seq<Seq<u8>>) -> Seq<Option<(T, Seq<u8>)>> {
    Seq::new(items.len(), |i: int| spec_get_assoc::<T>(items, i))
}

/// The four descriptor bytes of a slice at `start` of `length` bytes.
pub open spec fn descriptor_entry(start: int, length: int) -> Seq<u8> {
    seq![(start % 256) as u8, (start / 256) as u8, (length % 256) as u8, (length / 256) as u8]
}

/// Whether `after` is `before` with the descriptor of slice `k` set to `entry`.
pub open spec fn descriptor_set(before: Seq<u8>, after: Seq<u8>, k: int, entry: Seq<u8>) -> bool {
    &&& after.len() == before.len()
    &&& after.subrange(4 * k, 4 * k + 4) == entry
    &&& forall|p: int| 0 <= p < before.len() && !(4 * k <= p < 4 * k + 4) ==> #[trigger] after[p] == before[p]
}

/// Whether the key/value reading of a pool puts a key at `index`.
pub open spec fn spec_is_key(index: int) -> bool {
    index % 2 == 0
}

/// The key/value pairs of a sequence of slices: each element at an even index
/// is a key, followed by its value if there is one.
pub open spec fn spec_pairs(items: Seq<Seq<u8>>) -> Seq<(Seq<u8>, Option<Seq<u8>>)> {
    Seq::new(
        ((items.len() + 1) / 2) as nat,
        |k: int|
            (items[2 * k], if 2 * k + 1 < items.len() {
                Some(items[2 * k + 1])
            } else {
                None
            }),
    )
}

/// The elements that `add_key` keeps: all but a trailing key (an element at an even index
/// that is last).
pub open spec fn spec_key_base(items: Seq<Seq<u8>>) -> Seq<Seq<u8>> {
    if items.len() % 2 == 1 {
        items.drop_last()
    } else {
        items
    }
}

/// The elements that `add_value` keeps: all but a trailing value (an element at an odd
/// index that is last).
pub open spec fn spec_value_base(items: Seq<Seq<u8>>) -> Seq<Seq<u8>> {
    if items.len() > 0 && items.len() % 2 == 0 {
        items.drop_last()
    } else {
        items
    }
}

/// The elements after successful pushes of `xs`, one after the other, onto `items`.
pub open spec fn pushed_all(items: Seq<Seq<u8>>, xs: Seq<Seq<u8>>) -> Seq<Seq<u8>>
    decreases xs.len(),
{
    if xs.len() == 0 {
        items
    } else {
        pushed_all(items, xs.drop_last()).push(xs.last())
    }
}

/// The elements after `k` pops from `items` (none is left to pop once it is empty).
pub open spec fn popped_n(items: Seq<Seq<u8>>, k: nat) -> Seq<Seq<u8>>
    decreases k,
{
    if k == 0 || items.len() == 0 {
        items
    } else {
        popped_n(items.drop_last(), (k - 1) as nat)
    }
}

/// A series of successful pushes of `xs` puts them after the old elements, in order,
/// so that the length grows by their number; as many pops then take them off again,
/// the last pushed first, and leave the old elements as they were.
pub proof fn lemma_pushes_then_pops(items: Seq<Seq<u8>>, xs: Seq<Seq<u8>>)
    ensures
        pushed_all(items, xs) == items + xs,
        pushed_all(items, xs).len() == items.len() + xs.len(),
        popped_n(pushed_all(items, xs), xs.len()) == items,
        forall|j: int| 0 <= j < xs.len() ==> #[trigger] popped_n(pushed_all(items, xs), j as nat).last() == xs[xs.len() - 1 - j],
    decreases xs.len(),
{
    if xs.len() > 0 {
        lemma_pushes_then_pops(items, xs.drop_last());
        assert(items + xs =~= (items + xs.drop_last()).push(xs.last()));
        let all = pushed_all(items, xs);
        assert(all.drop_last() == pushed_all(items, xs.drop_last()));
        assert(popped_n(all, xs.len()) == popped_n(all.drop_last(), (xs.len() - 1) as nat));
        assert forall|j: int| 0 <= j < xs.len() implies #[trigger] popped_n(all, j as nat).last() == xs[xs.len() - 1 - j] by {
            if j > 0 {
                assert(popped_n(all, j as nat) == popped_n(all.drop_last(), (j - 1) as nat));
                let ys = xs.drop_last();
                assert(popped_n(pushed_all(items, ys), (j - 1) as nat).last() == ys[ys.len() - 1 - (j - 1)]);
            }
        }
    } else {
        assert(items + xs =~= items);
    }
}

/// Pushing a slice and then popping gives back that slice and leaves the elements as
/// they were before the push: the stack discipline that `push`, `add` and `pop` follow.
pub proof fn lemma_push_then_pop(items: Seq<Seq<u8>>, x: Seq<u8>)
    ensures
        items.push(x).last() == x,
        items.push(x).drop_last() == items,
        items.push(x).len() == items.len() + 1,
{
    assert(items.push(x).drop_last() =~= items);
}

/// Two successful `add_key` calls in a row leave only the second key: the second
/// replaces the first. After an `add_key` the last element is an unpaired key.
pub proof fn lemma_add_key_replaces(items: Seq<Seq<u8>>, first: Seq<u8>)
    ensures
        spec_key_base(spec_key_base(items).push(first)) == spec_key_base(items),
        spec_key_base(items).push(first).len() % 2 == 1,
{
    assert(spec_key_base(items).push(first).drop_last() =~= spec_key_base(items));
}

/// Two successful `add_value` calls in a row on a non-empty sequence leave only the
/// second value: the second replaces the first. After such an `add_value` no key is
/// unpaired.
pub proof fn lemma_add_value_replaces(items: Seq<Seq<u8>>, first: Seq<u8>)
    requires
        items.len() > 0,
    ensures
        spec_value_base(spec_value_base(items).push(first)) == spec_value_base(items),
        spec_value_base(items).push(first).len() % 2 == 0,
{
    assert(spec_value_base(items).push(first).drop_last() =~= spec_value_base(items));
}

/// A key added with `add_key` and then a value added with `add_value` form a complete
/// pair: the value is appended after the key, the last pair is that key with that
/// value, and the number of complete pairs grows by one.
pub proof fn lemma_key_then_value(items: Seq<Seq<u8>>, key: Seq<u8>, value: Seq<u8>)
    ensures
        spec_value_base(spec_key_base(items).push(key)) == spec_key_base(items).push(key),
        spec_pairs(spec_key_base(items).push(key).push(value)).last() == (key, Some(value)),
        spec_key_base(items).push(key).push(value).len() / 2 == spec_key_base(items).len() / 2
            + 1,
{
    let s = spec_key_base(items).push(key).push(value);
    let n = spec_pairs(s).len();
    assert(s.len() % 2 == 0);
    assert(n == s.len() / 2);
    assert(2 * (n - 1) == s.len() - 2);
    assert(s[s.len() - 2] == key);
    assert(s[s.len() - 1] == value);
}

/// Decoding the entry that `push_assoc` appends gives back the value and the data
/// that were pushed, for every value type whose decoding inverts its encoding.
pub proof fn lemma_assoc_roundtrip<T: AssocValue>(items: Seq<Seq<u8>>, v: T, data: Seq<u8>)
    ensures
        spec_get_assoc::<T>(items.push(v.spec_encode() + data), items.len() as int) == Some(
            (v, data),
        ),
{
    T::lemma_encode_decode(v);
    let entry = v.spec_encode() + data;
    assert(entry.subrange(0, T::spec_size() as int) =~= v.spec_encode());
    assert(entry.subrange(T::spec_size() as int, entry.len() as int) =~= data);
}

/// A zero-allocation stack of byte slices copied into a client-provided buffer.
///
/// The buffer is split into a descriptor area (4 bytes per slice) and a data area.
#[derive(Debug)]
pub struct U8Pool<'a> {
    max_slices: usize,
    count: usize,
    descriptor: SliceDescriptor<'a>,
    data: &'a mut [u8],
}

impl<'a> View for U8Pool<'a> {
    type V = Seq<Seq<u8>>;

    /// The stored slices, from the bottom of the stack to the top.
    closed spec fn view(&self) -> Seq<Seq<u8>> {
        Seq::new(self.count as nat, |i: int| self.slot_bytes(i))
    }
}

impl<'a> U8Pool<'a> {
    /// Bytes of the data area.
    pub closed spec fn data_bytes(&self) -> Seq<u8> {
        self.data@
    }

    /// Size of the data area.
    pub open spec fn capacity(&self) -> int {
        self.data_bytes().len() as int
    }

    /// The maximum number of slices.
    pub closed spec fn spec_max_slices(&self) -> int {
        self.max_slices as int
    }

    /// Start of slot `i` in the data area.
    #[verifier::inline]
    spec fn start_of(&self, i: int) -> int {
        self.descriptor.start_of(i)
    }

    /// End of slot `i` in the data area.
    #[verifier::inline]
    spec fn end_of(&self, i: int) -> int {
        self.descriptor.start_of(i) + self.descriptor.len_of(i)
    }

    /// The bytes of slot `i`.
    pub closed spec fn slot_bytes(&self, i: int) -> Seq<u8> {
        self.data@.subrange(self.start_of(i), self.end_of(i))
    }

    /// Bytes of the descriptor area: for slice `i`, bytes `4 * i .. 4 * i + 4` hold its
    /// start and length, each as a little-endian 16-bit number.
    pub closed spec fn descriptor_bytes(&self) -> Seq<u8> {
        self.descriptor.bytes()
    }

    /// Offset in the data area where slice `i` starts.
    pub closed spec fn slot_start(&self, i: int) -> int {
        self.start_of(i)
    }

    /// Offset in the data area just after slice `i`.
    pub closed spec fn slot_end(&self, i: int) -> int {
        self.end_of(i)
    }

    /// Offset of the first data byte not used by any slice.
    pub closed spec fn used_end(&self) -> int {
        if self.count == 0 {
            0
        } else {
            self.end_of(self.count - 1)
        }
    }

    /// Offset of the first data byte after the first `k` slices.
    pub closed spec fn used_end_at(&self, k: int) -> int {
        if k <= 0 {
            0
        } else {
            self.end_of(k - 1)
        }
    }

    /// Whether a slice of `n` bytes can be pushed once only the first `k` slices are kept.
    pub open spec fn fits_after(&self, k: int, n: int) -> bool {
        let start = self.used_end_at(k);
        &&& k < self.spec_max_slices()
        &&& start + n <= self.capacity()
        &&& start <= DESCRIPTOR_FIELD_MAX
        &&& n <= DESCRIPTOR_FIELD_MAX
    }

    /// The internal invariant: descriptors describe ordered, disjoint ranges of the data area.
    pub closed spec fn wf(&self) -> bool {
        &&& self.descriptor.bytes().len() == self.max_slices * 4
        &&& self.data@.len() <= usize::MAX
        &&& self.count <= self.max_slices
        &&& forall|i: int|
            0 <= i < self.count ==> 0 <= #[trigger] self.descriptor.start_of(i)
                <= self.descriptor.start_of(i) + self.descriptor.len_of(i) <= self.data@.len()
        &&& forall|i: int, j: int|
            0 <= i < j < self.count ==> #[trigger] self.descriptor.start_of(i)
                + self.descriptor.len_of(i) <= #[trigger] self.descriptor.start_of(j)
    }

    proof fn lemma_used_end(&self)
        requires
            self.wf(),
        ensures
            0 <= self.used_end() <= self.capacity(),
            forall|i: int| 0 <= i < self.count ==> #[trigger] self.descriptor.start_of(i) + self.descriptor.len_of(i) <= self.used_end(),
    {
        assert forall|i: int| 0 <= i < self.count implies #[trigger] self.descriptor.start_of(i)
            + self.descriptor.len_of(i) <= self.used_end() by {
            if i < self.count - 1 {
                assert(self.end_of(i) <= self.start_of(self.count - 1));
                assert(self.start_of(self.count - 1) <= self.end_of(self.count - 1));
            }
        }
    }

    /// A pool holds at most its maximum number of slices, and its slices end within
    /// the data area.
    pub proof fn lemma_pool_bounds(&self)
        requires
            self.wf(),
        ensures
            self@.len() <= self.spec_max_slices() <= usize::MAX,
            0 <= self.used_end() <= self.capacity(),
    {
        self.lemma_used_end();
    }

    /// The layout of a pool: each slice is the bytes of its range of the data area;
    /// the ranges come in push order, do not overlap, and end at `used_end`.
    pub proof fn lemma_layout(&self)
        requires
            self.wf(),
        ensures
            forall|i: int|
                0 <= i < self@.len() ==> 0 <= #[trigger] self.slot_start(i) <= self.slot_end(i)
                    <= self.used_end() && self@[i] == self.data_bytes().subrange(
                    self.slot_start(i),
                    self.slot_end(i),
                ),
            forall|i: int, j: int|
                0 <= i < j < self@.len() ==> #[trigger] self.slot_end(i) <= #[trigger] self.slot_start(j),
            self@.len() > 0 ==> self.used_end() == self.slot_end(self@.len() - 1),
            self@.len() == 0 ==> self.used_end() == 0,
    {
        self.lemma_used_end();
    }

    /// Creates a pool with room for `max_slices` slices in `buffer`.
    ///
    /// Fails with `InvalidInitialization` if `max_slices` is 0, the buffer is empty,
    /// or the buffer cannot hold the descriptors plus at least one data byte.
    pub fn new(buffer: &'a mut [u8], max_slices: usize) -> (r: Result<Self, U8PoolError>)
        ensures
            r is Ok <==> (max_slices > 0 && old(buffer)@.len() > 0 && max_slices * 4 + 1 <= old(buffer)@.len()),
            max_slices == 0 ==> r == Err::<Self, U8PoolError>(
                U8PoolError::InvalidInitialization { reason: "max_slices cannot be zero" },
            ),
            max_slices > 0 && old(buffer)@.len() == 0 ==> r == Err::<Self, U8PoolError>(
                U8PoolError::InvalidInitialization { reason: "buffer cannot be empty" },
            ),
            max_slices > 0 && old(buffer)@.len() > 0 && max_slices * 4 + 1 > old(buffer)@.len()
                ==> r == Err::<Self, U8PoolError>(
                U8PoolError::InvalidInitialization {
                    reason: "buffer too small for the requested max_slices",
                },
            ),
            r matches Ok(p) ==> {
                &&& p.wf()
                &&& p@ == Seq::<Seq<u8>>::empty()
                &&& p.spec_max_slices() == max_slices
                &&& p.capacity() == old(buffer)@.len() - max_slices * 4
                &&& p.used_end() == 0
            },
    {
        if max_slices == 0 {
            return Err(U8PoolError::InvalidInitialization { reason: "max_slices cannot be zero" });
        }
        if buffer.len() == 0 {
            return Err(U8PoolError::InvalidInitialization { reason: "buffer cannot be empty" });
        }
        if max_slices > (buffer.len() - 1) / SLICE_DESCRIPTOR_SIZE {
            return Err(
                U8PoolError::InvalidInitialization {
                    reason: "buffer too small for the requested max_slices",
                },
            );
        }
        let metadata_space = max_slices * SLICE_DESCRIPTOR_SIZE;
        let (descriptor_buffer, data) = buffer.split_at_mut(metadata_space);
        let descriptor = SliceDescriptor::new(descriptor_buffer);
        let pool = Self { data, count: 0, max_slices, descriptor };
        assert(pool@ =~= Seq::<Seq<u8>>::empty());
        Ok(pool)
    }

    /// Creates a pool with the default maximum number of slices (32).
    pub fn with_default_max_slices(buffer: &'a mut [u8]) -> (r: Result<Self, U8PoolError>)
        ensures
            r is Ok <==> old(buffer)@.len() >= DEFAULT_MAX_SLICES * 4 + 1,
            r is Err ==> r == Err::<Self, U8PoolError>(
                U8PoolError::InvalidInitialization {
                    reason: if old(buffer)@.len() == 0 {
                        "buffer cannot be empty"
                    } else {
                        "buffer too small for the requested max_slices"
                    },
                },
            ),
            r matches Ok(p) ==> {
                &&& p.wf()
                &&& p@ == Seq::<Seq<u8>>::empty()
                &&& p.spec_max_slices() == DEFAULT_MAX_SLICES
                &&& p.capacity() == old(buffer)@.len() - DEFAULT_MAX_SLICES * 4
                &&& p.used_end() == 0
            },
    {
        Self::new(buffer, DEFAULT_MAX_SLICES)
    }

    /// The number of slices in the pool.
    pub fn len(&self) -> (r: usize)
        ensures
            r == self@.len(),
    {
        self.count
    }

    /// Whether the pool holds no slices.
    pub fn is_empty(&self) -> (r: bool)
        ensures
            r == (self@.len() == 0),
    {
        self.count == 0
    }

    /// The maximum number of slices.
    pub fn max_slices(&self) -> (r: usize)
        ensures
            r == self.spec_max_slices(),
    {
        self.max_slices
    }

    /// Removes all slices. The data area is left as it is.
    pub fn clear(&mut self)
        requires
            old(self).wf(),
        ensures
            final(self).wf(),
            final(self)@ == Seq::<Seq<u8>>::empty(),
            final(self).spec_max_slices() == old(self).spec_max_slices(),
            final(self).capacity() == old(self).capacity(),
    {
        self.count = 0;
        assert(self@ =~= Seq::<Seq<u8>>::empty());
    }

    /// Offset of the first unused data byte.
    fn data_used(&self) -> (r: usize)
        requires
            self.wf(),
        ensures
            r == self.used_end(),
    {
        if self.count == 0 {
            0
        } else {
            match self.descriptor.get(self.count - 1) {
                Some((last_start, last_length)) => last_start + last_length,
                None => self.data.len(),
            }
        }
    }

    /// Checks that one more slice of `size + data_size` bytes fits, starting at the
    /// next multiple of `align`, and returns its start and end.
    fn reserve_aligned_buffer_space(&self, align: usize, size: usize, data_size: usize) -> (r:
        Result<(usize, usize), U8PoolError>)
        requires
            self.wf(),
            align >= 1,
        ensures
            self.count >= self.max_slices ==> r == Err::<(usize, usize), U8PoolError>(
                U8PoolError::SliceLimitExceeded { max_slices: self.max_slices },
            ),
            self.count < self.max_slices ==> {
                let cur = self.used_end();
                let start = round_up(cur, align as int);
                let avail = self.capacity() - cur;
                if (start - cur) + size + data_size > avail {
                    r matches Err(U8PoolError::BufferOverflow { requested, available }) && available
                        == avail && requested >= avail && ((start - cur) + size + data_size
                        <= usize::MAX ==> requested == (start - cur) + size + data_size)
                } else {
                    r == Ok::<(usize, usize), U8PoolError>(
                        (start as usize, (start + size + data_size) as usize),
                    )
                }
            },
    {
        if self.count >= self.max_slices {
            return Err(U8PoolError::SliceLimitExceeded { max_slices: self.max_slices });
        }
        proof {
            self.lemma_used_end();
        }
        let current_pos = self.data_used();
        let available = self.data.len() - current_pos;
        let rem = current_pos % align;
        let pad = if rem == 0 {
            0
        } else {
            align - rem
        };
        if pad > available || size > available - pad || data_size > available - pad - size {
            let requested = pad.saturating_add(size).saturating_add(data_size);
            return Err(U8PoolError::BufferOverflow { requested, available });
        }
        let aligned_start = current_pos + pad;
        Ok((aligned_start, aligned_start + size + data_size))
    }

    /// Records a new slot `[start, start + total_size)` on top of the stack.
    fn finalize_push(&mut self, start: usize, total_size: usize) -> (r: Result<(), U8PoolError>)
        requires
            old(self).wf(),
            old(self).count < old(self).max_slices,
            old(self).used_end() <= start,
            start + total_size <= old(self).capacity(),
        ensures
            final(self).wf(),
            final(self).data_bytes() == old(self).data_bytes(),
            final(self).spec_max_slices() == old(self).spec_max_slices(),
            start > DESCRIPTOR_FIELD_MAX ==> r == Err::<(), U8PoolError>(
                U8PoolError::ValueTooLarge { value: start, max: DESCRIPTOR_FIELD_MAX },
            ),
            start <= DESCRIPTOR_FIELD_MAX && total_size > DESCRIPTOR_FIELD_MAX ==> r == Err::<
                (),
                U8PoolError,
            >(U8PoolError::ValueTooLarge { value: total_size, max: DESCRIPTOR_FIELD_MAX }),
            r is Err ==> final(self)@ == old(self)@,
            r is Ok <==> (start <= DESCRIPTOR_FIELD_MAX && total_size <= DESCRIPTOR_FIELD_MAX),
            r is Ok ==> final(self)@ == old(self)@.push(
                old(self).data_bytes().subrange(start as int, start + total_size),
            ),
            r is Ok ==> final(self).used_end() == start + total_size,
            r is Ok ==> final(self).slot_start(old(self)@.len() as int) == start,
            r is Ok ==> descriptor_set(
                old(self).descriptor_bytes(),
                final(self).descriptor_bytes(),
                old(self)@.len() as int,
                descriptor_entry(start as int, total_size as int),
            ),
            r is Err ==> final(self).descriptor_bytes() == old(self).descriptor_bytes(),
            r is Err ==> final(self).used_end() == old(self).used_end(),
    {
        proof {
            self.lemma_used_end();
        }
        let ghost old_pool = *self;
        let res = self.descriptor.set(self.count, start, total_size);
        if let Err(e) = res {
            assert forall|i: int| 0 <= i < old_pool.count implies #[trigger] self.descriptor.same_slot(
                &old_pool.descriptor,
                i,
            ) by {}
            proof {
                self.lemma_same_slots(&old_pool);
            }
            return Err(e);
        }
        assert forall|i: int| 0 <= i < old_pool.count implies #[trigger] self.descriptor.same_slot(
            &old_pool.descriptor,
            i,
        ) by {
            assert(i != old_pool.count);
        }
        self.count = self.count + 1;
        assert(self.wf()) by {
            assert forall|i: int, j: int| 0 <= i < j < self.count implies #[trigger] self.descriptor.start_of(i)
                + self.descriptor.len_of(i) <= #[trigger] self.descriptor.start_of(j) by {
                assert(self.descriptor.same_slot(&old_pool.descriptor, i));
                if j < old_pool.count {
                    assert(self.descriptor.same_slot(&old_pool.descriptor, j));
                } else {
                    assert(old_pool.descriptor.start_of(i) + old_pool.descriptor.len_of(i)
                        <= old_pool.used_end());
                }
            }
            assert forall|i: int| 0 <= i < self.count implies 0 <= #[trigger] self.descriptor.start_of(i)
                <= self.descriptor.start_of(i) + self.descriptor.len_of(i) <= self.data@.len() by {
                if i < old_pool.count {
                    assert(self.descriptor.same_slot(&old_pool.descriptor, i));
                }
            }
        }
        assert(self@ =~= old_pool@.push(old_pool.data@.subrange(start as int, start + total_size)))
            by {
            assert forall|i: int| 0 <= i < old_pool.count implies #[trigger] self.slot_bytes(i)
                == old_pool.slot_bytes(i) by {
                assert(self.descriptor.same_slot(&old_pool.descriptor, i));
            }
        }
        Ok(())
    }

    /// A pool whose slots are those of a well-formed pool is well formed and has the same view.
    proof fn lemma_same_slots(&self, other: &Self)
        requires
            other.wf(),
            self.count == other.count,
            self.max_slices == other.max_slices,
            self.data@ == other.data@,
            self.descriptor.bytes().len() == other.descriptor.bytes().len(),
            forall|i: int| 0 <= i < self.count ==> #[trigger] self.descriptor.same_slot(&other.descriptor, i),
        ensures
            self.wf(),
            self@ == other@,
    {
        assert forall|i: int| 0 <= i < self.count implies 0 <= #[trigger] self.descriptor.start_of(i)
            <= self.descriptor.start_of(i) + self.descriptor.len_of(i) <= self.data@.len() by {
            assert(self.descriptor.same_slot(&other.descriptor, i));
        }
        assert forall|i: int, j: int| 0 <= i < j < self.count implies #[trigger] self.descriptor.start_of(i)
            + self.descriptor.len_of(i) <= #[trigger] self.descriptor.start_of(j) by {
            assert(self.descriptor.same_slot(&other.descriptor, i));
            assert(self.descriptor.same_slot(&other.descriptor, j));
        }
        assert forall|i: int| 0 <= i < self.count implies #[trigger] self.slot_bytes(i)
            == other.slot_bytes(i) by {
            assert(self.descriptor.same_slot(&other.descriptor, i));
        }
        assert(self@ =~= other@);
    }

    /// Copies `src` into the data area at `start`.
    fn copy_into(&mut self, start: usize, src: &[u8])
        requires
            old(self).wf(),
            old(self).used_end() <= start,
            start + src@.len() <= old(self).capacity(),
        ensures
            final(self).descriptor_bytes() == old(self).descriptor_bytes(),
            final(self).wf(),
            final(self)@ == old(self)@,
            final(self).count == old(self).count,
            final(self).max_slices == old(self).max_slices,
            final(self).used_end() == old(self).used_end(),
            final(self).capacity() == old(self).capacity(),
            final(self).data_bytes().subrange(start as int, start + src@.len()) == src@,
            forall|p: int|
                0 <= p < start ==> #[trigger] final(self).data_bytes()[p]
                    == old(self).data_bytes()[p],
    {
        proof {
            self.lemma_used_end();
        }
        let ghost old_pool = *self;
        let n = src.len();
        let cap = self.data.len();
        let mut k: usize = 0;
        while k < n
            invariant
                n == src@.len(),
                cap == old_pool.data@.len(),
                start + n <= cap,
                0 <= k <= n,
                start + src@.len() <= old_pool.capacity(),
                self.data@.len() == old_pool.data@.len(),
                self.descriptor == old_pool.descriptor,
                self.count == old_pool.count,
                self.max_slices == old_pool.max_slices,
                forall|p: int|
                    0 <= p < self.data@.len() && !(start <= p < start + k) ==> #[trigger] self.data@[p]
                        == old_pool.data@[p],
                forall|q: int| 0 <= q < k ==> #[trigger] self.data@[start + q] == src@[q],
            decreases src@.len() - k,
        {
            self.data[start + k] = src[k];
            k = k + 1;
        }
        assert forall|i: int| 0 <= i < self.count implies #[trigger] self.slot_bytes(i)
            == old_pool.slot_bytes(i) by {
            assert(self.end_of(i) <= start);
            assert(self.data@.subrange(self.start_of(i), self.end_of(i)) =~= old_pool.data@.subrange(
                self.start_of(i),
                self.end_of(i),
            ));
        }
        assert(self@ =~= old_pool@);
        assert forall|q: int| 0 <= q < n implies #[trigger] self.data@.subrange(
            start as int,
            start + n,
        )[q] == src@[q] by {
            assert(self.data@[start + q] == src@[q]);
        }
        assert(self.data@.subrange(start as int, start + src@.len()) =~= src@);
    }

    /// Pushes a copy of `data` on top of the stack and returns the stored copy.
    ///
    /// Fails when the slice limit is reached, when the data area has no room for
    /// `data`, or when the slice's start or length does not fit in 16 bits.
    pub fn push(&mut self, data: &[u8]) -> (r: Result<&[u8], U8PoolError>)
        requires
            old(self).wf(),
        ensures
            final(self).wf(),
            final(self).spec_max_slices() == old(self).spec_max_slices(),
            final(self).capacity() == old(self).capacity(),
            r is Ok <==> old(self).push_fits(data@.len() as int),
            r matches Ok(s) ==> s@ == data@ && final(self)@ == old(self)@.push(data@),
            r is Ok ==> final(self).used_end() == old(self).used_end() + data@.len(),
            r is Ok ==> final(self).slot_start(old(self)@.len() as int) == old(self).used_end(),
            r is Ok ==> descriptor_set(
                old(self).descriptor_bytes(),
                final(self).descriptor_bytes(),
                old(self)@.len() as int,
                descriptor_entry(old(self).used_end(), data@.len() as int),
            ),
            r is Ok ==> forall|p: int|
                0 <= p < old(self).used_end()
                    ==> #[trigger] final(self).data_bytes()[p] == old(self).data_bytes()[p],
            r is Err ==> final(self)@ == old(self)@ && final(self).used_end() == old(self).used_end(),
            old(self)@.len() >= old(self).spec_max_slices() ==> r == Err::<&[u8], U8PoolError>(
                U8PoolError::SliceLimitExceeded { max_slices: old(self).spec_max_slices() as usize },
            ),
            old(self)@.len() < old(self).spec_max_slices() && data@.len() > old(self).capacity()
                - old(self).used_end() ==> (r matches Err(U8PoolError::BufferOverflow { requested, available })
                && requested == data@.len() && available == old(self).capacity() - old(self).used_end()),
            old(self)@.len() < old(self).spec_max_slices() && data@.len() <= old(self).capacity()
                - old(self).used_end() && old(self).used_end() > DESCRIPTOR_FIELD_MAX ==> r == Err::<
                &[u8],
                U8PoolError,
            >(U8PoolError::ValueTooLarge { value: old(self).used_end() as usize, max: DESCRIPTOR_FIELD_MAX }),
            old(self)@.len() < old(self).spec_max_slices() && data@.len() <= old(self).capacity()
                - old(self).used_end() && old(self).used_end() <= DESCRIPTOR_FIELD_MAX && data@.len()
                > DESCRIPTOR_FIELD_MAX ==> r == Err::<&[u8], U8PoolError>(
                U8PoolError::ValueTooLarge { value: data@.len() as usize, max: DESCRIPTOR_FIELD_MAX },
            ),
    {
        assert(self.used_end() % 1 == 0);
        assert(round_up(self.used_end(), 1) == self.used_end());
        let (start, end) = match self.reserve_aligned_buffer_space(1, 0, data.len()) {
            Ok(pos) => pos,
            Err(e) => {
                return Err(e);
            },
        };
        proof {
            self.lemma_used_end();
        }
        self.copy_into(start, data);
        match self.finalize_push(start, end - start) {
            Ok(()) => {},
            Err(e) => {
                return Err(e);
            },
        }
        let stored = &self.data[start..end];
        assert(stored@ == data@);
        Ok(stored)
    }

    /// Whether a slice of `n` bytes can be pushed without alignment padding.
    pub open spec fn push_fits(&self, n: int) -> bool {
        self.assoc_fits(1, 0, n)
    }

    /// Whether an entry of `size + n` bytes, aligned to `align`, can be pushed.
    pub open spec fn assoc_fits(&self, align: int, size: int, n: int) -> bool {
        let start = round_up(self.used_end(), align);
        &&& self@.len() < self.spec_max_slices()
        &&& start + size + n <= self.capacity()
        &&& start <= DESCRIPTOR_FIELD_MAX
        &&& size + n <= DESCRIPTOR_FIELD_MAX
    }

    /// Removes the top slice and returns it, or `None` if the pool is empty.
    pub fn pop(&mut self) -> (r: Option<&[u8]>)
        requires
            old(self).wf(),
        ensures
            final(self).wf(),
            final(self).spec_max_slices() == old(self).spec_max_slices(),
            final(self).capacity() == old(self).capacity(),
            old(self)@.len() == 0 ==> r is None && final(self)@ == old(self)@,
            old(self)@.len() > 0 ==> (r matches Some(s) && s@ == old(self)@.last() && final(self)@ == old(self)@.drop_last()),
            forall|n: int| #[trigger] final(self).push_fits(n) == old(self).fits_after(final(self)@.len() as int, n),
    {
        if self.count == 0 {
            return None;
        }
        let ghost old_pool = *self;
        self.count = self.count - 1;
        assert(self@ =~= old_pool@.drop_last());
        match self.descriptor.get(self.count) {
            Some((start, length)) => Some(&self.data[start..start + length]),
            None => None,
        }
    }

    /// The top slice, or `None` if the pool is empty.
    pub fn top(&self) -> (r: Option<&[u8]>)
        requires
            self.wf(),
        ensures
            self@.len() == 0 ==> r is None,
            self@.len() > 0 ==> (r matches Some(s) && s@ == self@.last()),
    {
        if self.count == 0 {
            return None;
        }
        self.get(self.count - 1)
    }

    /// Removes the top slice and returns it; an empty pool is an error.
    pub fn try_pop(&mut self) -> (r: Result<&[u8], U8PoolError>)
        requires
            old(self).wf(),
        ensures
            final(self).wf(),
            final(self).spec_max_slices() == old(self).spec_max_slices(),
            final(self).capacity() == old(self).capacity(),
            old(self)@.len() == 0 ==> r == Err::<&[u8], U8PoolError>(
                U8PoolError::IndexOutOfBounds { index: 0, length: 0 },
            ) && final(self)@ == old(self)@,
            old(self)@.len() > 0 ==> (r matches Ok(s) && s@ == old(self)@.last() && final(self)@
                == old(self)@.drop_last()),
    {
        match self.pop() {
            Some(s) => Ok(s),
            None => Err(U8PoolError::IndexOutOfBounds { index: 0, length: 0 }),
        }
    }

    /// The slice at `index`, or `None` if the index is out of bounds.
    pub fn get(&self, index: usize) -> (r: Option<&[u8]>)
        requires
            self.wf(),
        ensures
            index >= self@.len() ==> r is None,
            index < self@.len() ==> (r matches Some(s) && s@ == self@[index as int]),
    {
        if index >= self.count {
            return None;
        }
        match self.descriptor.get(index) {
            Some((start, length)) => Some(&self.data[start..start + length]),
            None => None,
        }
    }

    /// Pushes `data` as the next element of the key/value reading: same as `push`,
    /// without the returned reference.
    pub fn add(&mut self, data: &[u8]) -> (r: Result<(), U8PoolError>)
        requires
            old(self).wf(),
        ensures
            final(self).wf(),
            final(self).spec_max_slices() == old(self).spec_max_slices(),
            final(self).capacity() == old(self).capacity(),
            r is Ok <==> old(self).push_fits(data@.len() as int),
            r is Ok ==> final(self)@ == old(self)@.push(data@),
            r is Err ==> final(self)@ == old(self)@,
    {
        match self.push(data) {
            Ok(_) => Ok(()),
            Err(e) => Err(e),
        }
    }

    /// Whether the element at `index` is a key (even index) in the key/value reading.
    pub fn is_key(&self, index: usize) -> (r: bool)
        ensures
            r == spec_is_key(index as int),
    {
        index % 2 == 0
    }

    /// Whether the element at `index` is a value (odd index) in the key/value reading.
    pub fn is_value(&self, index: usize) -> (r: bool)
        ensures
            r == !spec_is_key(index as int),
    {
        index % 2 == 1
    }

    /// Whether the last element is a key without a value.
    pub fn has_unpaired_key(&self) -> (r: bool)
        ensures
            r == (self@.len() % 2 == 1),
    {
        self.count % 2 == 1
    }

    /// The number of complete key/value pairs.
    pub fn pairs_count(&self) -> (r: usize)
        ensures
            r == self@.len() / 2,
    {
        self.count / 2
    }

    /// Adds a key: if the last element is a key, it is replaced, else `data` is pushed.
    /// When a replacement does not fit, the replaced key stays removed.
    pub fn add_key(&mut self, data: &[u8]) -> (r: Result<(), U8PoolError>)
        requires
            old(self).wf(),
        ensures
            final(self).wf(),
            final(self).spec_max_slices() == old(self).spec_max_slices(),
            final(self).capacity() == old(self).capacity(),
            r is Ok <==> old(self).fits_after(spec_key_base(old(self)@).len() as int, data@.len() as int),
            r is Ok ==> final(self)@ == spec_key_base(old(self)@).push(data@),
            r is Err ==> final(self)@ == spec_key_base(old(self)@),
    {
        if self.count % 2 == 1 {
            let _ = self.pop();
        }
        self.add(data)
    }

    /// Adds a value: if the last element is a value, it is replaced, else `data` is pushed.
    /// When a replacement does not fit, the replaced value stays removed.
    pub fn add_value(&mut self, data: &[u8]) -> (r: Result<(), U8PoolError>)
        requires
            old(self).wf(),
        ensures
            final(self).wf(),
            final(self).spec_max_slices() == old(self).spec_max_slices(),
            final(self).capacity() == old(self).capacity(),
            r is Ok <==> old(self).fits_after(spec_value_base(old(self)@).len() as int, data@.len() as int),
            r is Ok ==> final(self)@ == spec_value_base(old(self)@).push(data@),
            r is Err ==> final(self)@ == spec_value_base(old(self)@),
    {
        if self.count > 0 && self.count % 2 == 0 {
            let _ = self.pop();
        }
        self.add(data)
    }

    /// Writes the encoding of `assoc` into the data area at `start`.
    fn write_assoc<T: AssocValue>(&mut self, start: usize, assoc: &T)
        requires
            old(self).wf(),
            old(self).used_end() <= start,
            start + T::spec_size() <= old(self).capacity(),
        ensures
            final(self).descriptor_bytes() == old(self).descriptor_bytes(),
            final(self).wf(),
            final(self)@ == old(self)@,
            final(self).count == old(self).count,
            final(self).max_slices == old(self).max_slices,
            final(self).used_end() == old(self).used_end(),
            final(self).capacity() == old(self).capacity(),
            final(self).data_bytes().subrange(start as int, start + T::spec_size())
                == assoc.spec_encode(),
            forall|p: int|
                0 <= p < start ==> #[trigger] final(self).data_bytes()[p]
                    == old(self).data_bytes()[p],
    {
        proof {
            self.lemma_used_end();
            T::lemma_encode_decode(*assoc);
        }
        let ghost old_pool = *self;
        let n = T::assoc_size();
        let cap = self.data.len();
        let mut k: usize = 0;
        while k < n
            invariant
                n == T::spec_size(),
                cap == old_pool.data@.len(),
                start + n <= cap,
                0 <= k <= n,
                self.data@.len() == old_pool.data@.len(),
                self.descriptor == old_pool.descriptor,
                self.count == old_pool.count,
                self.max_slices == old_pool.max_slices,
                forall|p: int|
                    0 <= p < self.data@.len() && !(start <= p < start + k) ==> #[trigger] self.data@[p]
                        == old_pool.data@[p],
                forall|q: int| 0 <= q < k ==> #[trigger] self.data@[start + q] == assoc.spec_encode()[q],
            decreases n - k,
        {
            let b = assoc.encoded_byte(k);
            self.data[start + k] = b;
            k = k + 1;
        }
        assert forall|i: int| 0 <= i < self.count implies #[trigger] self.slot_bytes(i)
            == old_pool.slot_bytes(i) by {
            assert(self.end_of(i) <= start);
            assert(self.data@.subrange(self.start_of(i), self.end_of(i)) =~= old_pool.data@.subrange(
                self.start_of(i),
                self.end_of(i),
            ));
        }
        assert(self@ =~= old_pool@);
        assert forall|q: int| 0 <= q < n implies #[trigger] self.data@.subrange(
            start as int,
            start + n,
        )[q] == assoc.spec_encode()[q] by {
            assert(self.data@[start + q] == assoc.spec_encode()[q]);
        }
        assert(self.data@.subrange(start as int, start + n) =~= assoc.spec_encode());
    }

    /// Pushes the value `assoc` followed by a copy of `data` as one slice. The value's
    /// start is aligned to `T`'s alignment; padding bytes before it are left untouched.
    ///
    /// Fails when the slice limit is reached, when the data area has no room for the
    /// padding, the value and `data`, or when the slice's start or length does not fit
    /// in 16 bits.
    pub fn push_assoc<T: AssocValue>(&mut self, assoc: T, data: &[u8]) -> (r: Result<(), U8PoolError>)
        requires
            old(self).wf(),
        ensures
            final(self).wf(),
            final(self).spec_max_slices() == old(self).spec_max_slices(),
            final(self).capacity() == old(self).capacity(),
            r is Ok <==> old(self).assoc_fits(
                T::spec_align() as int,
                T::spec_size() as int,
                data@.len() as int,
            ),
            r is Ok ==> final(self)@ == old(self)@.push(assoc.spec_encode() + data@),
            r is Ok ==> final(self).used_end() == round_up(old(self).used_end(), T::spec_align() as int)
                + T::spec_size() + data@.len(),
            r is Ok ==> final(self).slot_start(old(self)@.len() as int) == round_up(
                old(self).used_end(),
                T::spec_align() as int,
            ),
            r is Ok ==> descriptor_set(
                old(self).descriptor_bytes(),
                final(self).descriptor_bytes(),
                old(self)@.len() as int,
                descriptor_entry(
                    round_up(old(self).used_end(), T::spec_align() as int),
                    (T::spec_size() + data@.len()) as int,
                ),
            ),
            r is Ok ==> forall|p: int|
                0 <= p < round_up(old(self).used_end(), T::spec_align() as int)
                    ==> #[trigger] final(self).data_bytes()[p] == old(self).data_bytes()[p],
            r is Err ==> final(self)@ == old(self)@ && final(self).used_end() == old(self).used_end(),
            old(self)@.len() >= old(self).spec_max_slices() ==> r == Err::<(), U8PoolError>(
                U8PoolError::SliceLimitExceeded { max_slices: old(self).spec_max_slices() as usize },
            ),
            ({
                let cur = old(self).used_end();
                let start = round_up(cur, T::spec_align() as int);
                let needed = (start - cur) + T::spec_size() + data@.len();
                let available = old(self).capacity() - cur;
                &&& old(self)@.len() < old(self).spec_max_slices() && needed > available ==> (r matches Err(
                    U8PoolError::BufferOverflow { requested, available: a },
                ) && a == available && (needed <= usize::MAX ==> requested == needed))
                &&& old(self)@.len() < old(self).spec_max_slices() && needed <= available && start
                    > DESCRIPTOR_FIELD_MAX ==> r == Err::<(), U8PoolError>(
                    U8PoolError::ValueTooLarge { value: start as usize, max: DESCRIPTOR_FIELD_MAX },
                )
                &&& old(self)@.len() < old(self).spec_max_slices() && needed <= available && start
                    <= DESCRIPTOR_FIELD_MAX && T::spec_size() + data@.len() > DESCRIPTOR_FIELD_MAX
                    ==> r == Err::<(), U8PoolError>(
                    U8PoolError::ValueTooLarge {
                        value: (T::spec_size() + data@.len()) as usize,
                        max: DESCRIPTOR_FIELD_MAX,
                    },
                )
            }),
    {
        proof {
            T::lemma_encode_decode(assoc);
            self.lemma_used_end();
        }
        let size = T::assoc_size();
        let align = T::assoc_align();
        let (start, end) = match self.reserve_aligned_buffer_space(align, size, data.len()) {
            Ok(pos) => pos,
            Err(e) => {
                return Err(e);
            },
        };
        assert(self.used_end() <= start) by {
            let cur = self.used_end();
            assert(cur % (align as int) >= 0);
        }
        self.write_assoc(start, &assoc);
        let ghost after_assoc = self.data@;
        self.copy_into(start + size, data);
        assert forall|q: int| 0 <= q < size implies #[trigger] self.data@[start + q]
            == assoc.spec_encode()[q] by {
            assert(after_assoc.subrange(start as int, start + size)[q] == after_assoc[start + q]);
        }
        match self.finalize_push(start, end - start) {
            Ok(()) => {},
            Err(e) => {
                return Err(e);
            },
        }
        assert(self@.last() =~= assoc.spec_encode() + data@) by {
            let whole = self.data@.subrange(start as int, end as int);
            assert forall|q: int| 0 <= q < size implies whole[q] == assoc.spec_encode()[q] by {
                assert(whole[q] == self.data@[start + q]);
            }
            assert forall|q: int| 0 <= q < data@.len() implies whole[size + q] == data@[q] by {
                assert(whole[size + q] == self.data@[start + size + q]);
                assert(self.data@.subrange(start + size, start + size + data@.len())[q]
                    == self.data@[start + size + q]);
            }
        }
        Ok(())
    }

    /// Decodes the value stored in front of slot `index` and returns it with the
    /// slice that follows it; `None` if the index is out of bounds or the slot is
    /// shorter than a `T`.
    pub fn get_assoc<T: AssocValue>(&self, index: usize) -> (r: Option<(T, &[u8])>)
        requires
            self.wf(),
        ensures
            r matches Some((v, rest)) ==> spec_get_assoc::<T>(self@, index as int) == Some(
                (v, rest@),
            ),
            r is Some <==> spec_get_assoc::<T>(self@, index as int) is Some,
    {
        if index >= self.count {
            return None;
        }
        let (aligned_start, total_length) = match self.descriptor.get(index) {
            Some(d) => d,
            None => {
                return None;
            },
        };
        let assoc_size = T::assoc_size();
        if total_length < assoc_size {
            return None;
        }
        let assoc_end = aligned_start + assoc_size;
        let data_end = aligned_start + total_length;
        let value = T::decode(&self.data[aligned_start..assoc_end]);
        let rest = &self.data[assoc_end..data_end];
        assert(self@[index as int].subrange(0, assoc_size as int) =~= self.data@.subrange(
            aligned_start as int,
            assoc_end as int,
        ));
        assert(self@[index as int].subrange(assoc_size as int, total_length as int)
            =~= rest@);
        Some((value, rest))
    }

    /// The value stored in front of the top slice; `None` if the pool is empty or
    /// the top slice is shorter than a `T`.
    pub fn top_assoc_obj<T: AssocValue>(&self) -> (r: Option<T>)
        requires
            self.wf(),
        ensures
            r is Some <==> spec_get_assoc::<T>(self@, self@.len() - 1) is Some,
            r matches Some(v) ==> spec_get_assoc::<T>(self@, self@.len() - 1) matches Some((w, _))
                && w == v,
    {
        if self.count == 0 {
            return None;
        }
        match self.get_assoc::<T>(self.count - 1) {
            Some((v, _rest)) => Some(v),
            None => None,
        }
    }

    /// Removes the top slice and returns its decoded value and the bytes after it.
    /// Returns `None`, leaving the pool unchanged, if the pool is empty or the top
    /// slice is shorter than a `T`.
    pub fn pop_assoc<T: AssocValue>(&mut self) -> (r: Option<(T, &[u8])>)
        requires
            old(self).wf(),
        ensures
            final(self).wf(),
            final(self).spec_max_slices() == old(self).spec_max_slices(),
            final(self).capacity() == old(self).capacity(),
            r is Some <==> spec_get_assoc::<T>(old(self)@, old(self)@.len() - 1) is Some,
            r is None ==> final(self)@ == old(self)@,
            r matches Some((v, rest)) ==> spec_get_assoc::<T>(old(self)@, old(self)@.len() - 1)
                == Some((v, rest@)) && final(self)@ == old(self)@.drop_last(),
    {
        if self.count == 0 {
            return None;
        }
        let last_index = self.count - 1;
        let (aligned_start, total_length) = match self.descriptor.get(last_index) {
            Some(d) => d,
            None => {
                return None;
            },
        };
        let assoc_size = T::assoc_size();
        if total_length < assoc_size {
            return None;
        }
        let ghost old_pool = *self;
        self.count = last_index;
        assert(self@ =~= old_pool@.drop_last());
        let assoc_end = aligned_start + assoc_size;
        let data_end = aligned_start + total_length;
        let value = T::decode(&self.data[aligned_start..assoc_end]);
        let rest = &self.data[assoc_end..data_end];
        assert(old_pool@[last_index as int].subrange(0, assoc_size as int) =~= self.data@.subrange(
            aligned_start as int,
            assoc_end as int,
        ));
        assert(old_pool@[last_index as int].subrange(assoc_size as int, total_length as int)
            =~= rest@);
        Some((value, rest))
    }

    /// Iterator over the slices, from the bottom of the stack to the top.
    pub fn iter(&self) -> (r: U8PoolIter<'_>)
        requires
            self.wf(),
        ensures
            r.valid(),
            r.remaining() == self@,
    {
        let it = U8PoolIter::new(&*self.data, self.descriptor.iter(self.count));
        assert(it.remaining() =~= self@);
        it
    }

    /// Iterator over the slices, from the top of the stack to the bottom.
    pub fn iter_rev(&self) -> (r: U8PoolRevIter<'_>)
        requires
            self.wf(),
        ensures
            r.valid(),
            r.remaining() == self@.reverse(),
    {
        let it = U8PoolRevIter::new(&*self.data, self.descriptor.iter_rev(self.count));
        assert(it.remaining() =~= self@.reverse());
        it
    }

    /// Iterator over the key/value pairs: each element at an even index with the
    /// element after it, if any.
    pub fn pairs(&self) -> (r: U8PoolPairIter<'_>)
        requires
            self.wf(),
        ensures
            r.valid(),
            r.remaining() == spec_pairs(self@),
    {
        U8PoolPairIter::new(self.iter())
    }

    /// Iterator over the decoded values and the slices after them, bottom to top.
    pub fn iter_assoc<T: AssocValue>(&self) -> (r: U8PoolAssocIter<'_, T>)
        requires
            self.wf(),
        ensures
            r.valid(),
            r.remaining() == spec_assoc_items::<T>(self@),
    {
        let it = U8PoolAssocIter::new(self);
        assert(it.remaining() =~= spec_assoc_items::<T>(self@));
        it
    }

    /// Iterator over the decoded values and the slices after them, top to bottom.
    pub fn iter_assoc_rev<T: AssocValue>(&self) -> (r: U8PoolAssocRevIter<'_, T>)
        requires
            self.wf(),
        ensures
            r.valid(),
            r.remaining() == spec_assoc_items::<T>(self@).reverse(),
    {
        let it = U8PoolAssocRevIter::new(self);
        assert(it.remaining() =~= spec_assoc_items::<T>(self@).reverse());
        it
    }
}

} // verus!
