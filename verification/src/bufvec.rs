use vstd::prelude::*;

use crate::bufvec_error::BufVecError;
use crate::bufvec_iter::{BufVecIter, BufVecPairIter};
use crate::u8pool::{spec_key_base, spec_value_base};

verus! {

/// Number of bytes of one slice descriptor: an 8-byte start offset and an 8-byte length.
pub const DESCRIPTOR_SIZE: usize = 16;

/// Number of slices of a vector made by `with_default_max_slices`.
pub const DEFAULT_MAX_SLICES: usize = 8;

/// The little-endian 64-bit value of the eight bytes of `b` at `off`.
#[verifier::opaque]
pub open spec fn le64(b: Seq<u8>, off: int) -> u64 {
    (b[off] as u64) | ((b[off + 1] as u64) << 8u64) | ((b[off + 2] as u64) << 16u64) | ((b[off
        + 3] as u64) << 24u64) | ((b[off + 4] as u64) << 32u64) | ((b[off + 5] as u64) << 40u64)
        | ((b[off + 6] as u64) << 48u64) | ((b[off + 7] as u64) << 56u64)
}

/// The total number of bytes of a sequence of slices.
#[verifier::opaque]
pub open spec fn total_len(items: Seq<Seq<u8>>) -> int
    decreases items.len(),
{
    if items.len() == 0 {
        0
    } else {
        total_len(items.drop_last()) + items.last().len()
    }
}

/// The data that a vector uses grows by a slice's length when the slice is pushed, and
/// returns to its previous amount when the slice is popped; an empty vector uses none.
pub proof fn lemma_total_len_push(items: Seq<Seq<u8>>, x: Seq<u8>)
    ensures
        total_len(items.push(x)) == total_len(items) + x.len(),
        total_len(items.push(x).drop_last()) == total_len(items),
        total_len(Seq::<Seq<u8>>::empty()) == 0,
{
    reveal(total_len);
    assert(items.push(x).drop_last() =~= items);
}

/// The error that adding an `n`-byte slice to a vector of `len` slices, at most `max`, with
/// `available` free data bytes, fails with; `None` when it fits.
pub open spec fn spec_add_error(len: int, max: int, available: int, n: int) -> Option<BufVecError> {
    if len >= max {
        Some(BufVecError::SliceLimitExceeded { max_slices: max as usize })
    } else if n > available {
        Some(BufVecError::BufferOverflow { requested: n as usize, available: available as usize })
    } else {
        None
    }
}

/// The result of an add whose outcome is `e`.
pub open spec fn spec_add_result(e: Option<BufVecError>) -> Result<(), BufVecError> {
    match e {
        Some(err) => Err(err),
        None => Ok(()),
    }
}

/// The number of bytes `BufVec::new` needs for `max_slices` descriptors and one data byte,
/// saturated at `usize::MAX`.
pub open spec fn spec_required(max_slices: int) -> int {
    if max_slices * 16 + 1 <= usize::MAX {
        max_slices * 16 + 1
    } else {
        usize::MAX as int
    }
}

proof fn lemma_le64_bytes(x: u64, b0: u8, b1: u8, b2: u8, b3: u8, b4: u8, b5: u8, b6: u8, b7: u8)
    by (bit_vector)
    requires
        b0 == x as u8,
        b1 == (x >> 8u64) as u8,
        b2 == (x >> 16u64) as u8,
        b3 == (x >> 24u64) as u8,
        b4 == (x >> 32u64) as u8,
        b5 == (x >> 40u64) as u8,
        b6 == (x >> 48u64) as u8,
        b7 == (x >> 56u64) as u8,
    ensures
        x == (b0 as u64) | ((b1 as u64) << 8u64) | ((b2 as u64) << 16u64) | ((b3 as u64) << 24u64)
            | ((b4 as u64) << 32u64) | ((b5 as u64) << 40u64) | ((b6 as u64) << 48u64) | ((b7
            as u64) << 56u64),
{
}

/// Reads the little-endian 64-bit value at `off`.
fn read_u64(bytes: &[u8], off: usize) -> (r: u64)
    requires
        off + 8 <= bytes@.len(),
    ensures
        r == le64(bytes@, off as int),
{
    reveal(le64);
    (bytes[off] as u64) | ((bytes[off + 1] as u64) << 8u64) | ((bytes[off + 2] as u64) << 16u64)
        | ((bytes[off + 3] as u64) << 24u64) | ((bytes[off + 4] as u64) << 32u64) | ((bytes[off
        + 5] as u64) << 40u64) | ((bytes[off + 6] as u64) << 48u64) | ((bytes[off + 7] as u64)
        << 56u64)
}

/// Writes `x` as a little-endian 64-bit value at `off`.
fn write_u64(bytes: &mut [u8], off: usize, x: u64)
    requires
        off + 8 <= old(bytes)@.len(),
    ensures
        final(bytes)@.len() == old(bytes)@.len(),
        le64(final(bytes)@, off as int) == x,
        forall|p: int|
            0 <= p < old(bytes)@.len() && !(off <= p < off + 8) ==> #[trigger] final(bytes)@[p]
                == old(bytes)@[p],
        forall|j: int|
            0 <= j && j + 8 <= old(bytes)@.len() && (j + 8 <= off || off + 8 <= j) ==> #[trigger] le64(
                final(bytes)@,
                j,
            ) == le64(old(bytes)@, j),
{
    let b0 = x as u8;
    let b1 = (x >> 8u64) as u8;
    let b2 = (x >> 16u64) as u8;
    let b3 = (x >> 24u64) as u8;
    let b4 = (x >> 32u64) as u8;
    let b5 = (x >> 40u64) as u8;
    let b6 = (x >> 48u64) as u8;
    let b7 = (x >> 56u64) as u8;
    bytes[off] = b0;
    bytes[off + 1] = b1;
    bytes[off + 2] = b2;
    bytes[off + 3] = b3;
    bytes[off + 4] = b4;
    bytes[off + 5] = b5;
    bytes[off + 6] = b6;
    bytes[off + 7] = b7;
    proof {
        reveal(le64);
        lemma_le64_bytes(x, b0, b1, b2, b3, b4, b5, b6, b7);
    }
    assert forall|j: int|
        0 <= j && j + 8 <= old(bytes)@.len() && (j + 8 <= off || off + 8 <= j) implies #[trigger] le64(
            bytes@,
            j,
        ) == le64(old(bytes)@, j) by {
        lemma_le64_same(bytes@, old(bytes)@, j);
    }
}

/// Equal bytes at `off..off + 8` give equal values.
proof fn lemma_le64_same(a: Seq<u8>, b: Seq<u8>, off: int)
    requires
        forall|k: int| 0 <= k < 8 ==> #[trigger] a[off + k] == b[off + k],
    ensures
        le64(a, off) == le64(b, off),
{
    reveal(le64);
    assert(a[off + 0] == b[off + 0]);
    assert(a[off + 1] == b[off + 1]);
    assert(a[off + 2] == b[off + 2]);
    assert(a[off + 3] == b[off + 3]);
    assert(a[off + 4] == b[off + 4]);
    assert(a[off + 5] == b[off + 5]);
    assert(a[off + 6] == b[off + 6]);
    assert(a[off + 7] == b[off + 7]);
    assert(a[off] == b[off]);
}

/// A vector of byte slices copied into a client-provided buffer, with no allocation.
///
/// The buffer is split into a descriptor area (16 bytes per slice: start offset and
/// length, little-endian) and a data area where the slices are stored one after another.
/// Elements at even indices may be read as keys and those at odd indices as their values.
#[derive(Debug)]
pub struct BufVec<'a> {
    meta: &'a mut [u8],
    data: &'a mut [u8],
    max_slices: usize,
    count: usize,
}

impl<'a> View for BufVec<'a> {
    type V = Seq<Seq<u8>>;

    /// The stored slices, in order.
    closed spec fn view(&self) -> Seq<Seq<u8>> {
        Seq::new(self.count as nat, |i: int| self.slot_bytes(i))
    }
}

impl<'a> BufVec<'a> {
    /// Start offset of slot `i` in the data area.
    spec fn start_of(&self, i: int) -> int {
        le64(self.meta@, 16 * i) as int
    }

    /// Length of slot `i`.
    spec fn len_of(&self, i: int) -> int {
        le64(self.meta@, 16 * i + 8) as int
    }

    /// End offset of slot `i` in the data area.
    spec fn end_of(&self, i: int) -> int {
        self.start_of(i) + self.len_of(i)
    }

    /// The bytes of slot `i`.
    spec fn slot_bytes(&self, i: int) -> Seq<u8> {
        self.data@.subrange(self.start_of(i), self.end_of(i))
    }

    /// Slot `i` starts where slot `i - 1` ends.
    spec fn follows(&self, i: int) -> bool {
        self.start_of(i) == self.end_of(i - 1)
    }

    /// Size of the data area.
    spec fn data_len(&self) -> int {
        self.data@.len() as int
    }

    /// Offset of the first data byte not used by any slice.
    spec fn used_end(&self) -> int {
        if self.count == 0 {
            0
        } else {
            self.end_of(self.count - 1)
        }
    }

    /// Size of the whole buffer: descriptor area and data area.
    pub closed spec fn spec_buffer_capacity(&self) -> int {
        (self.meta@.len() + self.data@.len()) as int
    }

    /// The maximum number of slices.
    pub closed spec fn spec_max_slices(&self) -> int {
        self.max_slices as int
    }

    /// Size of the descriptor area.
    pub open spec fn spec_metadata_size(&self) -> int {
        self.spec_max_slices() * 16
    }

    /// Free bytes of the data area.
    pub open spec fn spec_available(&self) -> int {
        self.spec_buffer_capacity() - self.spec_metadata_size() - total_len(self@)
    }

    /// The internal invariant: the descriptors describe consecutive ranges of the data area,
    /// starting at its first byte.
    pub closed spec fn wf(&self) -> bool {
        &&& self.meta@.len() == self.max_slices * 16
        &&& self.count <= self.max_slices
        &&& self.meta@.len() + self.data@.len() <= usize::MAX
        &&& forall|i: int|
            0 <= i < self.count ==> #[trigger] self.start_of(i) <= self.end_of(i) <= self.data@.len()
        &&& forall|i: int, j: int|
            0 <= i < j < self.count ==> #[trigger] self.end_of(i) <= #[trigger] self.start_of(j)
        &&& self.count > 0 ==> self.start_of(0) == 0
        &&& forall|i: int| 0 < i < self.count ==> #[trigger] self.follows(i)
        &&& self.used_end() == total_len(self@)
    }

    proof fn lemma_wf_facts(&self)
        requires
            self.wf(),
        ensures
            self.used_end() <= self.data_len(),
            forall|i: int| 0 <= i < self.count ==> #[trigger] self.end_of(i) <= self.used_end(),
            self.spec_available() == self.data_len() - self.used_end(),
            self@.len() == self.count,
            self.max_slices <= usize::MAX / 16,
    {
        assert forall|i: int| 0 <= i < self.count implies #[trigger] self.end_of(i)
            <= self.used_end() by {
            if i < self.count - 1 {
                assert(self.end_of(i) <= self.start_of(self.count - 1));
                assert(self.start_of(self.count - 1) <= self.end_of(self.count - 1));
            }
        }
        if self.count > 0 {
            assert(self.start_of(self.count - 1) <= self.end_of(self.count - 1));
        }
    }

    /// The number of slices is at most the maximum, whose descriptors fit in memory.
    pub proof fn lemma_len_bound(&self)
        requires
            self.wf(),
        ensures
            self@.len() <= self.spec_max_slices(),
            self.spec_max_slices() * 16 <= usize::MAX,
    {
    }

    /// A vector with the descriptors and slices of a well-formed one is well formed.
    proof fn lemma_wf_same_slices(&self, other: &Self)
        requires
            other.wf(),
            self.meta@ == other.meta@,
            self.count == other.count,
            self.max_slices == other.max_slices,
            self.data@.len() == other.data@.len(),
            self@ == other@,
        ensures
            self.wf(),
    {
        assert forall|i: int| 0 <= i < self.count implies #[trigger] self.start_of(i)
            <= self.end_of(i) <= self.data@.len() by {
            assert(other.start_of(i) <= other.end_of(i) <= other.data@.len());
        }
        assert forall|i: int, j: int| 0 <= i < j < self.count implies #[trigger] self.end_of(i)
            <= #[trigger] self.start_of(j) by {
            assert(other.end_of(i) <= other.start_of(j));
        }
        assert forall|i: int| 0 < i < self.count implies #[trigger] self.follows(i) by {
            assert(other.follows(i));
        }
        assert(self.used_end() == other.used_end() || self.count < other.count);
    }

    /// Dropping the last slot of a well-formed vector leaves a well-formed vector.
    proof fn lemma_wf_drop_last(&self, other: &Self)
        requires
            other.wf(),
            other.count > 0,
            self.meta@ == other.meta@,
            self.data@ == other.data@,
            self.count == other.count - 1,
            self.max_slices == other.max_slices,
        ensures
            self.wf(),
            self@ == other@.drop_last(),
    {
        let last = self.count as int;
        assert(self@ =~= other@.drop_last()) by {
            assert forall|i: int| 0 <= i < self.count implies #[trigger] self.slot_bytes(i)
                == other.slot_bytes(i) by {}
        }
        assert(other.start_of(last) <= other.end_of(last) <= other.data@.len());
        assert(other@.last() == other.slot_bytes(last));
        assert(other.slot_bytes(last).len() == other.len_of(last));
        reveal(total_len);
        assert(total_len(other@) == total_len(other@.drop_last()) + other@.last().len());
        if self.count > 0 {
            assert(other.follows(last));
        }
        assert forall|i: int| 0 <= i < self.count implies #[trigger] self.start_of(i)
            <= self.end_of(i) <= self.data@.len() by {
            assert(other.start_of(i) <= other.end_of(i) <= other.data@.len());
        }
        assert forall|i: int, j: int| 0 <= i < j < self.count implies #[trigger] self.end_of(i)
            <= #[trigger] self.start_of(j) by {
            assert(other.end_of(i) <= other.start_of(j));
        }
        assert forall|i: int| 0 < i < self.count implies #[trigger] self.follows(i) by {
            assert(other.follows(i));
        }
        assert(self.used_end() == other.used_end() || self.count < other.count);
    }

    /// Reads the start and length of slot `i`.
    fn read_slot(&self, i: usize) -> (r: (usize, usize))
        requires
            self.wf(),
            i < self.count,
        ensures
            r.0 == self.start_of(i as int),
            r.1 == self.len_of(i as int),
            r.0 + r.1 <= self.data_len(),
    {
        assert(self.start_of(i as int) <= self.end_of(i as int) <= self.data@.len());
        let start = read_u64(&*self.meta, i * 16);
        let length = read_u64(&*self.meta, i * 16 + 8);
        (start as usize, length as usize)
    }

    /// Creates a vector with room for `max_slices` slices in `buffer`.
    ///
    /// Fails with `InvalidConfiguration` when `max_slices` is 0, with `ZeroSizeBuffer`
    /// when the buffer is empty, and with `BufferTooSmall` when the buffer cannot hold the
    /// descriptors plus one data byte.
    pub fn new(buffer: &'a mut [u8], max_slices: usize) -> (r: Result<Self, BufVecError>)
        ensures
            max_slices == 0 ==> r == Err::<Self, BufVecError>(
                BufVecError::InvalidConfiguration { parameter: "max_slices", value: 0 },
            ),
            max_slices > 0 && old(buffer)@.len() == 0 ==> r == Err::<Self, BufVecError>(
                BufVecError::ZeroSizeBuffer,
            ),
            max_slices > 0 && old(buffer)@.len() > 0 && old(buffer)@.len() < max_slices * 16 + 1
                ==> r == Err::<Self, BufVecError>(
                BufVecError::BufferTooSmall {
                    required: spec_required(max_slices as int) as usize,
                    provided: old(buffer)@.len() as usize,
                },
            ),
            r is Ok <==> (max_slices > 0 && old(buffer)@.len() >= max_slices * 16 + 1),
            r matches Ok(v) ==> {
                &&& v.wf()
                &&& v@ == Seq::<Seq<u8>>::empty()
                &&& v.spec_max_slices() == max_slices
                &&& v.spec_buffer_capacity() == old(buffer)@.len()
            },
    {
        if max_slices == 0 {
            return Err(BufVecError::InvalidConfiguration { parameter: "max_slices", value: 0 });
        }
        let provided = buffer.len();
        if provided == 0 {
            return Err(BufVecError::ZeroSizeBuffer);
        }
        if max_slices > (provided - 1) / DESCRIPTOR_SIZE {
            let required = if max_slices > (usize::MAX - 1) / DESCRIPTOR_SIZE {
                usize::MAX
            } else {
                max_slices * DESCRIPTOR_SIZE + 1
            };
            return Err(BufVecError::BufferTooSmall { required, provided });
        }
        let (meta, data) = buffer.split_at_mut(max_slices * DESCRIPTOR_SIZE);
        let v = BufVec { meta, data, max_slices, count: 0 };
        assert(v@ =~= Seq::<Seq<u8>>::empty());
        proof {
            reveal(total_len);
        }
        Ok(v)
    }

    /// Creates a vector with the default maximum number of slices (8).
    pub fn with_default_max_slices(buffer: &'a mut [u8]) -> (r: Result<Self, BufVecError>)
        ensures
            old(buffer)@.len() == 0 ==> r == Err::<Self, BufVecError>(BufVecError::ZeroSizeBuffer),
            old(buffer)@.len() > 0 && old(buffer)@.len() < DEFAULT_MAX_SLICES * 16 + 1
                ==> r == Err::<Self, BufVecError>(
                BufVecError::BufferTooSmall {
                    required: (DEFAULT_MAX_SLICES * 16 + 1) as usize,
                    provided: old(buffer)@.len() as usize,
                },
            ),
            r is Ok <==> old(buffer)@.len() >= DEFAULT_MAX_SLICES * 16 + 1,
            r matches Ok(v) ==> {
                &&& v.wf()
                &&& v@ == Seq::<Seq<u8>>::empty()
                &&& v.spec_max_slices() == DEFAULT_MAX_SLICES
                &&& v.spec_buffer_capacity() == old(buffer)@.len()
            },
    {
        Self::new(buffer, DEFAULT_MAX_SLICES)
    }

    /// The number of slices.
    pub fn len(&self) -> (r: usize)
        requires
            self.wf(),
        ensures
            r == self@.len(),
    {
        self.count
    }

    /// Whether the vector holds no slices.
    pub fn is_empty(&self) -> (r: bool)
        requires
            self.wf(),
        ensures
            r == (self@.len() == 0),
    {
        self.count == 0
    }

    /// Size of the whole buffer.
    pub fn buffer_capacity(&self) -> (r: usize)
        requires
            self.wf(),
        ensures
            r == self.spec_buffer_capacity(),
    {
        self.meta.len() + self.data.len()
    }

    /// The maximum number of slices.
    pub fn max_slices(&self) -> (r: usize)
        ensures
            r == self.spec_max_slices(),
    {
        self.max_slices
    }

    /// Bytes of the data area used by the slices.
    pub fn data_used(&self) -> (r: usize)
        requires
            self.wf(),
        ensures
            r == total_len(self@),
    {
        proof {
            self.lemma_wf_facts();
        }
        if self.count == 0 {
            0
        } else {
            let (start, length) = self.read_slot(self.count - 1);
            start + length
        }
    }

    /// Bytes of the buffer in use: the descriptor area and the data used by the slices.
    pub fn used_bytes(&self) -> (r: usize)
        requires
            self.wf(),
        ensures
            r == self.spec_metadata_size() + total_len(self@),
    {
        proof {
            self.lemma_wf_facts();
        }
        self.meta.len() + self.data_used()
    }

    /// Free bytes of the data area.
    pub fn available_bytes(&self) -> (r: usize)
        requires
            self.wf(),
        ensures
            r == self.spec_available(),
    {
        proof {
            self.lemma_wf_facts();
        }
        self.data.len() - self.data_used()
    }

    /// Copies `src` into the data area at the first unused byte.
    fn copy_to_end(&mut self, src: &[u8])
        requires
            old(self).wf(),
            old(self).used_end() + src@.len() <= old(self).data@.len(),
        ensures
            final(self).wf(),
            final(self)@ == old(self)@,
            final(self).count == old(self).count,
            final(self).max_slices == old(self).max_slices,
            final(self).meta@ == old(self).meta@,
            final(self).data@.len() == old(self).data@.len(),
            final(self).data@.subrange(old(self).used_end(), old(self).used_end() + src@.len())
                == src@,
    {
        proof {
            self.lemma_wf_facts();
        }
        let ghost old_vec = *self;
        let start = self.data_used();
        let n = src.len();
        let cap = self.data.len();
        let mut k: usize = 0;
        while k < n
            invariant
                n == src@.len(),
                cap == old_vec.data@.len(),
                start == old_vec.used_end(),
                start + n <= cap,
                0 <= k <= n,
                self.data@.len() == old_vec.data@.len(),
                self.meta@ == old_vec.meta@,
                self.count == old_vec.count,
                self.max_slices == old_vec.max_slices,
                forall|p: int|
                    0 <= p < self.data@.len() && !(start <= p < start + k) ==> #[trigger] self.data@[p]
                        == old_vec.data@[p],
                forall|q: int| 0 <= q < k ==> #[trigger] self.data@[start + q] == src@[q],
            decreases n - k,
        {
            self.data[start + k] = src[k];
            k = k + 1;
        }
        assert forall|i: int| 0 <= i < self.count implies #[trigger] self.slot_bytes(i)
            == old_vec.slot_bytes(i) by {
            assert(old_vec.end_of(i) <= start);
            assert(self.data@.subrange(self.start_of(i), self.end_of(i)) =~= old_vec.data@.subrange(
                self.start_of(i),
                self.end_of(i),
            ));
        }
        assert(self@ =~= old_vec@);
        proof {
            self.lemma_wf_same_slices(&old_vec);
        }
        assert(self.data@.subrange(start as int, start + n) =~= src@) by {
            assert forall|q: int| 0 <= q < n implies #[trigger] self.data@.subrange(
                start as int,
                start + n,
            )[q] == src@[q] by {
                assert(self.data@[start + q] == src@[q]);
            }
        }
    }

    /// Records slot `count` as `[start, start + length)` and counts it.
    fn append_slot(&mut self, start: usize, length: usize)
        requires
            old(self).wf(),
            old(self).count < old(self).max_slices,
            start == old(self).used_end(),
            start + length <= old(self).data@.len(),
        ensures
            final(self).wf(),
            final(self).data@ == old(self).data@,
            final(self).max_slices == old(self).max_slices,
            final(self).meta@.len() == old(self).meta@.len(),
            final(self)@ == old(self)@.push(
                old(self).data@.subrange(start as int, start + length),
            ),
    {
        proof {
            self.lemma_wf_facts();
        }
        let ghost old_vec = *self;
        let off = self.count * DESCRIPTOR_SIZE;
        write_u64(&mut *self.meta, off, start as u64);
        let ghost mid_meta = self.meta@;
        write_u64(&mut *self.meta, off + 8, length as u64);
        self.count = self.count + 1;
        assert forall|i: int| 0 <= i < old_vec.count implies #[trigger] self.start_of(i)
            == old_vec.start_of(i) && self.len_of(i) == old_vec.len_of(i) by {
            assert(16 * i + 16 <= off);
            assert(le64(self.meta@, 16 * i) == le64(mid_meta, 16 * i));
            assert(le64(self.meta@, 16 * i + 8) == le64(mid_meta, 16 * i + 8));
        }
        assert(le64(self.meta@, off as int) == le64(mid_meta, off as int));
        let ghost item = old_vec.data@.subrange(start as int, start + length);
        assert(self@ =~= old_vec@.push(item)) by {
            assert forall|i: int| 0 <= i < old_vec.count implies #[trigger] self.slot_bytes(i)
                == old_vec.slot_bytes(i) by {
                assert(self.start_of(i) == old_vec.start_of(i) && self.len_of(i)
                    == old_vec.len_of(i));
            }
        }
        assert(self.wf()) by {
            assert forall|i: int| 0 <= i < self.count implies #[trigger] self.start_of(i)
                <= self.end_of(i) <= self.data@.len() by {
                if i < old_vec.count {
                    assert(self.start_of(i) == old_vec.start_of(i) && self.len_of(i)
                        == old_vec.len_of(i));
                }
            }
            assert forall|i: int, j: int| 0 <= i < j < self.count implies #[trigger] self.end_of(i)
                <= #[trigger] self.start_of(j) by {
                assert(self.start_of(i) == old_vec.start_of(i) && self.len_of(i)
                    == old_vec.len_of(i));
                if j < old_vec.count {
                    assert(self.start_of(j) == old_vec.start_of(j) && self.len_of(j)
                        == old_vec.len_of(j));
                }
            }
            assert forall|i: int| 0 < i < self.count implies #[trigger] self.follows(i) by {
                assert(self.start_of(i - 1) == old_vec.start_of(i - 1) && self.len_of(i - 1)
                    == old_vec.len_of(i - 1));
                if i < old_vec.count {
                    assert(self.start_of(i) == old_vec.start_of(i) && self.len_of(i)
                        == old_vec.len_of(i));
                    assert(old_vec.follows(i));
                }
            }
            if old_vec.count > 0 {
                assert(self.start_of(0) == old_vec.start_of(0));
            }
            assert(old_vec@.push(item).drop_last() =~= old_vec@);
            reveal(total_len);
        }
    }

    /// Appends a copy of `data`.
    ///
    /// Fails with `SliceLimitExceeded` when the vector is full and with `BufferOverflow`
    /// when the data area has no room for `data`; the vector is then unchanged.
    pub fn add(&mut self, data: &[u8]) -> (r: Result<(), BufVecError>)
        requires
            old(self).wf(),
        ensures
            final(self).wf(),
            final(self).spec_max_slices() == old(self).spec_max_slices(),
            final(self).spec_buffer_capacity() == old(self).spec_buffer_capacity(),
            r == spec_add_result(
                spec_add_error(
                    old(self)@.len() as int,
                    old(self).spec_max_slices(),
                    old(self).spec_available(),
                    data@.len() as int,
                ),
            ),
            r is Ok ==> final(self)@ == old(self)@.push(data@),
            r is Err ==> final(self)@ == old(self)@,
    {
        proof {
            self.lemma_wf_facts();
        }
        if self.count >= self.max_slices {
            return Err(BufVecError::SliceLimitExceeded { max_slices: self.max_slices });
        }
        let available = self.available_bytes();
        if data.len() > available {
            return Err(BufVecError::BufferOverflow { requested: data.len(), available });
        }
        let start = self.data_used();
        self.copy_to_end(data);
        self.append_slot(start, data.len());
        Ok(())
    }

    /// Pushes a copy of `data` on top of the stack: the same as `add`.
    pub fn push(&mut self, data: &[u8]) -> (r: Result<(), BufVecError>)
        requires
            old(self).wf(),
        ensures
            final(self).wf(),
            final(self).spec_max_slices() == old(self).spec_max_slices(),
            final(self).spec_buffer_capacity() == old(self).spec_buffer_capacity(),
            r == spec_add_result(
                spec_add_error(
                    old(self)@.len() as int,
                    old(self).spec_max_slices(),
                    old(self).spec_available(),
                    data@.len() as int,
                ),
            ),
            r is Ok ==> final(self)@ == old(self)@.push(data@),
            r is Err ==> final(self)@ == old(self)@,
    {
        self.add(data)
    }

    /// The slice at `index`.
    pub fn get(&self, index: usize) -> (r: &[u8])
        requires
            self.wf(),
            index < self@.len(),
        ensures
            r@ == self@[index as int],
    {
        let (start, length) = self.read_slot(index);
        &self.data[start..start + length]
    }

    /// The slice at `index`, or `IndexOutOfBounds` when there is none.
    pub fn try_get(&self, index: usize) -> (r: Result<&[u8], BufVecError>)
        requires
            self.wf(),
        ensures
            index < self@.len() ==> (r matches Ok(s) && s@ == self@[index as int]),
            index >= self@.len() ==> r == Err::<&[u8], BufVecError>(
                BufVecError::IndexOutOfBounds { index, length: self@.len() as usize },
            ),
    {
        if index >= self.count {
            return Err(BufVecError::IndexOutOfBounds { index, length: self.count });
        }
        Ok(self.get(index))
    }

    /// Removes the last slice and returns it.
    pub fn pop(&mut self) -> (r: &[u8])
        requires
            old(self).wf(),
            old(self)@.len() > 0,
        ensures
            final(self).wf(),
            final(self).spec_max_slices() == old(self).spec_max_slices(),
            final(self).spec_buffer_capacity() == old(self).spec_buffer_capacity(),
            r@ == old(self)@.last(),
            final(self)@ == old(self)@.drop_last(),
    {
        let ghost old_vec = *self;
        let (start, length) = self.read_slot(self.count - 1);
        self.count = self.count - 1;
        proof {
            self.lemma_wf_drop_last(&old_vec);
            assert(old_vec@.last() == old_vec.slot_bytes(self.count as int));
        }
        &self.data[start..start + length]
    }

    /// Removes the last slice and returns it, or `EmptyVector` when there is none.
    pub fn try_pop(&mut self) -> (r: Result<&[u8], BufVecError>)
        requires
            old(self).wf(),
        ensures
            final(self).wf(),
            final(self).spec_max_slices() == old(self).spec_max_slices(),
            final(self).spec_buffer_capacity() == old(self).spec_buffer_capacity(),
            old(self)@.len() == 0 ==> r == Err::<&[u8], BufVecError>(BufVecError::EmptyVector)
                && final(self)@ == old(self)@,
            old(self)@.len() > 0 ==> (r matches Ok(s) && s@ == old(self)@.last() && final(self)@
                == old(self)@.drop_last()),
    {
        if self.count == 0 {
            return Err(BufVecError::EmptyVector);
        }
        Ok(self.pop())
    }

    /// The last slice.
    pub fn top(&self) -> (r: &[u8])
        requires
            self.wf(),
            self@.len() > 0,
        ensures
            r@ == self@.last(),
    {
        self.get(self.count - 1)
    }

    /// The last slice, or `EmptyVector` when there is none.
    pub fn try_top(&self) -> (r: Result<&[u8], BufVecError>)
        requires
            self.wf(),
        ensures
            self@.len() == 0 ==> r == Err::<&[u8], BufVecError>(BufVecError::EmptyVector),
            self@.len() > 0 ==> (r matches Ok(s) && s@ == self@.last()),
    {
        if self.count == 0 {
            return Err(BufVecError::EmptyVector);
        }
        Ok(self.top())
    }

    /// Removes all slices.
    pub fn clear(&mut self)
        requires
            old(self).wf(),
        ensures
            final(self).wf(),
            final(self)@ == Seq::<Seq<u8>>::empty(),
            final(self).spec_max_slices() == old(self).spec_max_slices(),
            final(self).spec_buffer_capacity() == old(self).spec_buffer_capacity(),
    {
        self.count = 0;
        assert(self@ =~= Seq::<Seq<u8>>::empty());
        proof {
            reveal(total_len);
        }
    }

    /// Whether the element at `index` is a key (even index) in the key/value reading.
    pub fn is_key(&self, index: usize) -> (r: bool)
        ensures
            r == (index % 2 == 0),
    {
        index % 2 == 0
    }

    /// Whether the element at `index` is a value (odd index) in the key/value reading.
    pub fn is_value(&self, index: usize) -> (r: bool)
        ensures
            r == (index % 2 == 1),
    {
        index % 2 == 1
    }

    /// Whether the last element is a key without a value.
    pub fn has_unpaired_key(&self) -> (r: bool)
        requires
            self.wf(),
        ensures
            r == (self@.len() % 2 == 1),
    {
        self.count % 2 == 1
    }

    /// The number of complete key/value pairs.
    pub fn pairs_count(&self) -> (r: usize)
        requires
            self.wf(),
        ensures
            r == self@.len() / 2,
    {
        self.count / 2
    }

    /// Adds a key: if the last element is a key, it is replaced, else `data` is appended.
    /// When the replacement does not fit, the replaced key stays removed.
    pub fn add_key(&mut self, data: &[u8]) -> (r: Result<(), BufVecError>)
        requires
            old(self).wf(),
        ensures
            final(self).wf(),
            final(self).spec_max_slices() == old(self).spec_max_slices(),
            final(self).spec_buffer_capacity() == old(self).spec_buffer_capacity(),
            ({
                let base = spec_key_base(old(self)@);
                let available = old(self).spec_buffer_capacity() - old(self).spec_metadata_size()
                    - total_len(base);
                &&& r == spec_add_result(
                    spec_add_error(
                        base.len() as int,
                        old(self).spec_max_slices(),
                        available,
                        data@.len() as int,
                    ),
                )
                &&& r is Ok ==> final(self)@ == base.push(data@)
                &&& r is Err ==> final(self)@ == base
            }),
    {
        if self.count % 2 == 1 {
            let _ = self.pop();
        }
        self.add(data)
    }

    /// Adds a value: if the last element is a value, it is replaced, else `data` is appended.
    /// When the replacement does not fit, the replaced value stays removed.
    pub fn add_value(&mut self, data: &[u8]) -> (r: Result<(), BufVecError>)
        requires
            old(self).wf(),
        ensures
            final(self).wf(),
            final(self).spec_max_slices() == old(self).spec_max_slices(),
            final(self).spec_buffer_capacity() == old(self).spec_buffer_capacity(),
            ({
                let base = spec_value_base(old(self)@);
                let available = old(self).spec_buffer_capacity() - old(self).spec_metadata_size()
                    - total_len(base);
                &&& r == spec_add_result(
                    spec_add_error(
                        base.len() as int,
                        old(self).spec_max_slices(),
                        available,
                        data@.len() as int,
                    ),
                )
                &&& r is Ok ==> final(self)@ == base.push(data@)
                &&& r is Err ==> final(self)@ == base
            }),
    {
        if self.count > 0 && self.count % 2 == 0 {
            let _ = self.pop();
        }
        self.add(data)
    }

    /// Iterator over the slices, in order.
    pub fn iter(&self) -> (r: BufVecIter<'_>)
        requires
            self.wf(),
        ensures
            r.valid(),
            r.remaining() == self@,
    {
        BufVecIter::new(self)
    }

    /// Iterator over the slices, in order: the same as `iter`.
    pub fn into_iter(&self) -> (r: BufVecIter<'_>)
        requires
            self.wf(),
        ensures
            r.valid(),
            r.remaining() == self@,
    {
        BufVecIter::new(self)
    }

    /// Iterator over the key/value pairs: each element at an even index with the
    /// element after it, if any.
    pub fn pairs(&self) -> (r: BufVecPairIter<'_>)
        requires
            self.wf(),
        ensures
            r.valid(),
            r.remaining() == crate::u8pool::spec_pairs(self@),
    {
        BufVecPairIter::new(self)
    }
}

} // verus!
