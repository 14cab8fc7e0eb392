use vstd::prelude::*;

use crate::pool_error::U8PoolError;

verus! {

/// Number of bytes of one descriptor: 2 bytes start + 2 bytes length.
pub const SLICE_DESCRIPTOR_SIZE: usize = 4;

/// Largest value a descriptor field can hold.
pub const DESCRIPTOR_FIELD_MAX: usize = 65535;

/// Little-endian value of the two bytes `lo`, `hi`.
pub open spec fn le16(lo: u8, hi: u8) -> int {
    lo as int + hi as int * 256
}

/// Reads and writes slice descriptors (start, length) in a byte buffer.
/// Both fields are 16-bit little-endian values.
#[derive(Debug)]
pub struct SliceDescriptor<'a> {
    buffer: &'a mut [u8],
}

impl<'a> SliceDescriptor<'a> {
    /// The bytes of the descriptor buffer.
    pub closed spec fn bytes(&self) -> Seq<u8> {
        self.buffer@
    }

    /// Number of descriptor slots in the buffer.
    pub open spec fn slots(&self) -> int {
        self.bytes().len() as int / 4
    }

    /// The start field of slot `i`.
    pub open spec fn start_of(&self, i: int) -> int {
        le16(self.bytes()[4 * i], self.bytes()[4 * i + 1])
    }

    /// The length field of slot `i`.
    pub open spec fn len_of(&self, i: int) -> int {
        le16(self.bytes()[4 * i + 2], self.bytes()[4 * i + 3])
    }

    /// Slot `i` of `self` and of `other` hold the same fields.
    pub open spec fn same_slot(&self, other: &Self, i: int) -> bool {
        &&& self.start_of(i) == other.start_of(i)
        &&& self.len_of(i) == other.len_of(i)
    }

    pub fn new(buffer: &'a mut [u8]) -> (r: Self)
        ensures
            r.bytes() == old(buffer)@,
    {
        Self { buffer }
    }

    /// Number of bytes of the descriptor buffer.
    pub fn byte_len(&self) -> (r: usize)
        ensures
            r == self.bytes().len(),
    {
        self.buffer.len()
    }

    /// Retrieves the descriptor at `index`: `Some((start, length))`, or `None`
    /// when the index is beyond the descriptor buffer.
    pub fn get(&self, index: usize) -> (r: Option<(usize, usize)>)
        ensures
            index < self.slots() ==> r == Some(
                (self.start_of(index as int) as usize, self.len_of(index as int) as usize),
            ),
            index >= self.slots() ==> r is None,
    {
        if index >= self.buffer.len() / SLICE_DESCRIPTOR_SIZE {
            return None;
        }
        let offset = index * SLICE_DESCRIPTOR_SIZE;
        let start = self.buffer[offset] as usize + self.buffer[offset + 1] as usize * 256;
        let length = self.buffer[offset + 2] as usize + self.buffer[offset + 3] as usize * 256;
        Some((start, length))
    }

    /// Stores the descriptor `(start, length)` at `index`.
    pub fn set(&mut self, index: usize, start: usize, length: usize) -> (r: Result<(), U8PoolError>)
        ensures
            start > DESCRIPTOR_FIELD_MAX ==> r == Err::<(), U8PoolError>(
                U8PoolError::ValueTooLarge { value: start, max: DESCRIPTOR_FIELD_MAX },
            ),
            start <= DESCRIPTOR_FIELD_MAX && length > DESCRIPTOR_FIELD_MAX ==> r == Err::<
                (),
                U8PoolError,
            >(U8PoolError::ValueTooLarge { value: length, max: DESCRIPTOR_FIELD_MAX }),
            start <= DESCRIPTOR_FIELD_MAX && length <= DESCRIPTOR_FIELD_MAX && index
                >= old(self).slots() ==> r == Err::<(), U8PoolError>(
                U8PoolError::IndexOutOfBounds {
                    index,
                    length: (old(self).bytes().len() / 4) as usize,
                },
            ),
            r is Err ==> final(self).bytes() == old(self).bytes(),
            r is Ok <==> (start <= DESCRIPTOR_FIELD_MAX && length <= DESCRIPTOR_FIELD_MAX && index
                < old(self).slots()),
            r is Ok ==> {
                &&& final(self).bytes().len() == old(self).bytes().len()
                &&& final(self).start_of(index as int) == start
                &&& final(self).len_of(index as int) == length
                &&& final(self).bytes().subrange(4 * index, 4 * index + 4) == seq![
                    (start % 256) as u8,
                    (start / 256) as u8,
                    (length % 256) as u8,
                    (length / 256) as u8,
                ]
                &&& forall|p: int|
                    0 <= p < old(self).bytes().len() && !(4 * index <= p < 4 * index + 4)
                        ==> #[trigger] final(self).bytes()[p] == old(self).bytes()[p]
                &&& forall|j: int|
                    0 <= j < old(self).slots() && j != index ==> #[trigger] final(self).same_slot(
                        old(self),
                        j,
                    )
            },
    {
        if start > DESCRIPTOR_FIELD_MAX {
            return Err(U8PoolError::ValueTooLarge { value: start, max: DESCRIPTOR_FIELD_MAX });
        }
        if length > DESCRIPTOR_FIELD_MAX {
            return Err(U8PoolError::ValueTooLarge { value: length, max: DESCRIPTOR_FIELD_MAX });
        }
        if index >= self.buffer.len() / SLICE_DESCRIPTOR_SIZE {
            return Err(
                U8PoolError::IndexOutOfBounds {
                    index,
                    length: self.buffer.len() / SLICE_DESCRIPTOR_SIZE,
                },
            );
        }
        let offset = index * SLICE_DESCRIPTOR_SIZE;
        let ghost before = self.buffer@;
        self.buffer[offset] = (start % 256) as u8;
        self.buffer[offset + 1] = (start / 256) as u8;
        self.buffer[offset + 2] = (length % 256) as u8;
        self.buffer[offset + 3] = (length / 256) as u8;
        assert(self.bytes().subrange(4 * index, 4 * index + 4) =~= seq![
            (start % 256) as u8,
            (start / 256) as u8,
            (length % 256) as u8,
            (length / 256) as u8,
        ]);
        assert forall|j: int| 0 <= j < self.slots() && j != index implies #[trigger] self.same_slot(
            &*old(self),
            j,
        ) by {
            assert(self.bytes()[4 * j] == before[4 * j]);
            assert(self.bytes()[4 * j + 1] == before[4 * j + 1]);
            assert(self.bytes()[4 * j + 2] == before[4 * j + 2]);
            assert(self.bytes()[4 * j + 3] == before[4 * j + 3]);
        }
        Ok(())
    }

    /// Forward iterator over the descriptors of slots `0..count`.
    pub fn iter(&self, count: usize) -> (r: SliceDescriptorIter<'_>)
        requires
            count <= self.slots(),
        ensures
            r.valid(),
            r.remaining() == Seq::new(count as nat, |k: int| self.entry(k)),
            r.descriptor() == self,
    {
        SliceDescriptorIter { descriptor: self, current: 0, count }
    }

    /// Reverse iterator over the descriptors of slots `0..count`, from the last one.
    pub fn iter_rev(&self, count: usize) -> (r: SliceDescriptorRevIter<'_>)
        requires
            count <= self.slots(),
        ensures
            r.valid(),
            r.remaining() == Seq::new(count as nat, |k: int| self.entry(count - 1 - k)),
            r.descriptor() == self,
    {
        SliceDescriptorRevIter { descriptor: self, current: count }
    }

    /// The `(start, length)` fields of slot `i`.
    pub open spec fn entry(&self, i: int) -> (usize, usize) {
        (self.start_of(i) as usize, self.len_of(i) as usize)
    }
}

} // verus!

verus! {

/// Forward iterator over slice descriptors.
#[derive(Clone, Copy)]
pub struct SliceDescriptorIter<'a> {
    descriptor: &'a SliceDescriptor<'a>,
    current: usize,
    count: usize,
}

impl<'a> SliceDescriptorIter<'a> {
    /// The descriptor buffer iterated over.
    pub closed spec fn descriptor(&self) -> &'a SliceDescriptor<'a> {
        self.descriptor
    }

    /// Whether the iterator's bounds lie within the descriptor buffer.
    pub closed spec fn valid(&self) -> bool {
        self.current <= self.count <= self.descriptor.slots()
    }

    /// The descriptors not yet returned.
    pub closed spec fn remaining(&self) -> Seq<(usize, usize)> {
        Seq::new(
            (self.count - self.current) as nat,
            |k: int| self.descriptor.entry(self.current + k),
        )
    }

    pub fn next(&mut self) -> (r: Option<(usize, usize)>)
        requires
            old(self).valid(),
        ensures
            final(self).valid(),
            final(self).descriptor() == old(self).descriptor(),
            old(self).remaining().len() == 0 ==> r is None && final(self).remaining() == old(self).remaining(),
            old(self).remaining().len() > 0 ==> r == Some(old(self).remaining()[0]) && final(self).remaining() == old(self).remaining().drop_first(),
    {
        if self.current < self.count {
            let result = self.descriptor.get(self.current);
            self.current = self.current + 1;
            assert(self.remaining() =~= old(self).remaining().drop_first());
            result
        } else {
            None
        }
    }

    pub fn size_hint(&self) -> (r: (usize, Option<usize>))
        requires
            self.valid(),
        ensures
            r.0 == self.remaining().len(),
            r.1 == Some(r.0),
    {
        let remaining = self.count - self.current;
        (remaining, Some(remaining))
    }
}

/// Reverse iterator over slice descriptors.
#[derive(Clone, Copy)]
pub struct SliceDescriptorRevIter<'a> {
    descriptor: &'a SliceDescriptor<'a>,
    current: usize,
}

impl<'a> SliceDescriptorRevIter<'a> {
    /// The descriptor buffer iterated over.
    pub closed spec fn descriptor(&self) -> &'a SliceDescriptor<'a> {
        self.descriptor
    }

    /// Whether the iterator's bound lies within the descriptor buffer.
    pub closed spec fn valid(&self) -> bool {
        self.current <= self.descriptor.slots()
    }

    /// The descriptors not yet returned, in the order they will be returned.
    pub closed spec fn remaining(&self) -> Seq<(usize, usize)> {
        Seq::new(self.current as nat, |k: int| self.descriptor.entry(self.current - 1 - k))
    }

    pub fn next(&mut self) -> (r: Option<(usize, usize)>)
        requires
            old(self).valid(),
        ensures
            final(self).valid(),
            final(self).descriptor() == old(self).descriptor(),
            old(self).remaining().len() == 0 ==> r is None && final(self).remaining() == old(self).remaining(),
            old(self).remaining().len() > 0 ==> r == Some(old(self).remaining()[0]) && final(self).remaining() == old(self).remaining().drop_first(),
    {
        if self.current > 0 {
            self.current = self.current - 1;
            assert(self.remaining() =~= old(self).remaining().drop_first());
            self.descriptor.get(self.current)
        } else {
            None
        }
    }

    pub fn size_hint(&self) -> (r: (usize, Option<usize>))
        requires
            self.valid(),
        ensures
            r.0 == self.remaining().len(),
            r.1 == Some(r.0),
    {
        (self.current, Some(self.current))
    }
}

} // verus!
