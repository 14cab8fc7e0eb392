#![allow(unused_mut, dead_code, unused_variables)]
use scan_json::{AssocValue, U8Pool, U8PoolAssocIter, U8PoolAssocRevIter, U8PoolError};

// Test values stored in front of pool slices. Each is encoded as its fields in
// little-endian order, with the size and alignment it has in memory; the
// specification items of the trait exist only for the verifier and are never called.

#[derive(Debug, PartialEq, Clone, Copy)]
struct Point {
    x: i32,
    y: i32,
}

impl AssocValue for Point {
    fn spec_size() -> vstd::prelude::nat {
        unreachable!()
    }

    fn spec_align() -> vstd::prelude::nat {
        unreachable!()
    }

    fn spec_encode(&self) -> vstd::seq::Seq<u8> {
        unreachable!()
    }

    fn spec_decode(_bytes: vstd::seq::Seq<u8>) -> Self {
        unreachable!()
    }

    fn lemma_encode_decode(_v: Self) {}

    fn assoc_size() -> usize {
        8
    }

    fn assoc_align() -> usize {
        4
    }

    fn encoded_byte(&self, i: usize) -> u8 {
        if i < 4 {
            self.x.to_le_bytes()[i]
        } else {
            self.y.to_le_bytes()[i - 4]
        }
    }

    fn decode(bytes: &[u8]) -> Self {
        Point {
            x: i32::from_le_bytes([bytes[0], bytes[1], bytes[2], bytes[3]]),
            y: i32::from_le_bytes([bytes[4], bytes[5], bytes[6], bytes[7]]),
        }
    }
}

#[derive(Debug, PartialEq, Clone, Copy)]
struct SingleByte {
    value: u8,
}

#[derive(Debug, PartialEq, Clone, Copy)]
struct TwoBytes {
    value: u16,
}

#[derive(Debug, PartialEq, Clone, Copy)]
struct FourBytes {
    value: u32,
}

#[derive(Debug, PartialEq, Clone, Copy)]
struct EightBytes {
    value: u64,
}

/// Laid out as `#[repr(C)]` would: `small` at 0, `big` at 8, `medium` at 16, 24 bytes.
#[derive(Debug, PartialEq, Clone, Copy)]
struct ComplexStruct {
    small: u8,
    big: u64,
    medium: u32,
}

impl AssocValue for SingleByte {
    fn spec_size() -> vstd::prelude::nat {
        unreachable!()
    }

    fn spec_align() -> vstd::prelude::nat {
        unreachable!()
    }

    fn spec_encode(&self) -> vstd::seq::Seq<u8> {
        unreachable!()
    }

    fn spec_decode(_bytes: vstd::seq::Seq<u8>) -> Self {
        unreachable!()
    }

    fn lemma_encode_decode(_v: Self) {}

    fn assoc_size() -> usize {
        1
    }

    fn assoc_align() -> usize {
        1
    }

    fn encoded_byte(&self, i: usize) -> u8 {
        self.value
    }

    fn decode(bytes: &[u8]) -> Self {
        SingleByte { value: bytes[0] }
    }
}

impl AssocValue for TwoBytes {
    fn spec_size() -> vstd::prelude::nat {
        unreachable!()
    }

    fn spec_align() -> vstd::prelude::nat {
        unreachable!()
    }

    fn spec_encode(&self) -> vstd::seq::Seq<u8> {
        unreachable!()
    }

    fn spec_decode(_bytes: vstd::seq::Seq<u8>) -> Self {
        unreachable!()
    }

    fn lemma_encode_decode(_v: Self) {}

    fn assoc_size() -> usize {
        2
    }

    fn assoc_align() -> usize {
        2
    }

    fn encoded_byte(&self, i: usize) -> u8 {
        self.value.to_le_bytes()[i]
    }

    fn decode(bytes: &[u8]) -> Self {
        TwoBytes { value: u16::from_le_bytes([bytes[0], bytes[1]]) }
    }
}

impl AssocValue for FourBytes {
    fn spec_size() -> vstd::prelude::nat {
        unreachable!()
    }

    fn spec_align() -> vstd::prelude::nat {
        unreachable!()
    }

    fn spec_encode(&self) -> vstd::seq::Seq<u8> {
        unreachable!()
    }

    fn spec_decode(_bytes: vstd::seq::Seq<u8>) -> Self {
        unreachable!()
    }

    fn lemma_encode_decode(_v: Self) {}

    fn assoc_size() -> usize {
        4
    }

    fn assoc_align() -> usize {
        4
    }

    fn encoded_byte(&self, i: usize) -> u8 {
        self.value.to_le_bytes()[i]
    }

    fn decode(bytes: &[u8]) -> Self {
        FourBytes { value: u32::from_le_bytes([bytes[0], bytes[1], bytes[2], bytes[3]]) }
    }
}

impl AssocValue for EightBytes {
    fn spec_size() -> vstd::prelude::nat {
        unreachable!()
    }

    fn spec_align() -> vstd::prelude::nat {
        unreachable!()
    }

    fn spec_encode(&self) -> vstd::seq::Seq<u8> {
        unreachable!()
    }

    fn spec_decode(_bytes: vstd::seq::Seq<u8>) -> Self {
        unreachable!()
    }

    fn lemma_encode_decode(_v: Self) {}

    fn assoc_size() -> usize {
        8
    }

    fn assoc_align() -> usize {
        8
    }

    fn encoded_byte(&self, i: usize) -> u8 {
        self.value.to_le_bytes()[i]
    }

    fn decode(bytes: &[u8]) -> Self {
        let mut b = [0u8; 8];
        b.copy_from_slice(&bytes[..8]);
        EightBytes { value: u64::from_le_bytes(b) }
    }
}

impl AssocValue for ComplexStruct {
    fn spec_size() -> vstd::prelude::nat {
        unreachable!()
    }

    fn spec_align() -> vstd::prelude::nat {
        unreachable!()
    }

    fn spec_encode(&self) -> vstd::seq::Seq<u8> {
        unreachable!()
    }

    fn spec_decode(_bytes: vstd::seq::Seq<u8>) -> Self {
        unreachable!()
    }

    fn lemma_encode_decode(_v: Self) {}

    fn assoc_size() -> usize {
        24
    }

    fn assoc_align() -> usize {
        8
    }

    fn encoded_byte(&self, i: usize) -> u8 {
        if i == 0 {
            self.small
        } else if (8..16).contains(&i) {
            self.big.to_le_bytes()[i - 8]
        } else if (16..20).contains(&i) {
            self.medium.to_le_bytes()[i - 16]
        } else {
            0
        }
    }

    fn decode(bytes: &[u8]) -> Self {
        let mut big = [0u8; 8];
        big.copy_from_slice(&bytes[8..16]);
        ComplexStruct {
            small: bytes[0],
            big: u64::from_le_bytes(big),
            medium: u32::from_le_bytes([bytes[16], bytes[17], bytes[18], bytes[19]]),
        }
    }
}

fn collect_points<'a>(mut it: U8PoolAssocIter<'a, Point>) -> Vec<(Point, &'a [u8])> {
    let mut v = Vec::new();
    while let Some(item) = it.next() {
        v.push(item);
    }
    v
}

fn collect_points_rev<'a>(mut it: U8PoolAssocRevIter<'a, Point>) -> Vec<(Point, &'a [u8])> {
    let mut v = Vec::new();
    while let Some(item) = it.next() {
        v.push(item);
    }
    v
}

#[test]
fn test_push_pop_assoc_basic() {
    let mut buffer = [0u8; 256];
    let mut pool = U8Pool::with_default_max_slices(&mut buffer).unwrap();

    let key = Point { x: 42, y: 100 };
    let data = b"hello";

    pool.push_assoc(key, data).unwrap();
    assert_eq!(pool.len(), 1);

    let (retrieved_key, retrieved_data) = pool.get_assoc::<Point>(0).unwrap();
    assert_eq!(retrieved_key, Point { x: 42, y: 100 });
    assert_eq!(retrieved_data, b"hello");

    let (popped_key, popped_data) = pool.pop_assoc::<Point>().unwrap();
    assert_eq!(popped_key, Point { x: 42, y: 100 });
    assert_eq!(popped_data, b"hello");
    assert_eq!(pool.len(), 0);
}

#[test]
fn test_push_pop_assoc_multiple() {
    let mut buffer = [0u8; 256];
    let mut pool = U8Pool::with_default_max_slices(&mut buffer).unwrap();

    pool.push_assoc(Point { x: 10, y: 20 }, b"first").unwrap();
    pool.push_assoc(Point { x: 30, y: 40 }, b"second").unwrap();
    pool.push_assoc(Point { x: 50, y: 60 }, b"third").unwrap();

    assert_eq!(pool.len(), 3);

    let (key1, data1) = pool.get_assoc::<Point>(0).unwrap();
    assert_eq!(key1, Point { x: 10, y: 20 });
    assert_eq!(data1, b"first");

    let (key2, data2) = pool.get_assoc::<Point>(1).unwrap();
    assert_eq!(key2, Point { x: 30, y: 40 });
    assert_eq!(data2, b"second");

    let (key3, data3) = pool.get_assoc::<Point>(2).unwrap();
    assert_eq!(key3, Point { x: 50, y: 60 });
    assert_eq!(data3, b"third");

    let (key3, data3) = pool.pop_assoc::<Point>().unwrap();
    assert_eq!(key3, Point { x: 50, y: 60 });
    assert_eq!(data3, b"third");
    assert_eq!(pool.len(), 2);

    let (key2, data2) = pool.pop_assoc::<Point>().unwrap();
    assert_eq!(key2, Point { x: 30, y: 40 });
    assert_eq!(data2, b"second");
    assert_eq!(pool.len(), 1);

    let (key1, data1) = pool.pop_assoc::<Point>().unwrap();
    assert_eq!(key1, Point { x: 10, y: 20 });
    assert_eq!(data1, b"first");
    assert_eq!(pool.len(), 0);
}

#[test]
fn test_push_assoc_zero_data() {
    let mut buffer = [0u8; 64];
    let mut pool = U8Pool::new(&mut buffer, 4).unwrap();

    let key = Point { x: 123, y: 456 };
    let data = b"";

    pool.push_assoc(key, data).unwrap();
    assert_eq!(pool.len(), 1);

    let (retrieved_key, retrieved_data) = pool.get_assoc::<Point>(0).unwrap();
    assert_eq!(retrieved_key, Point { x: 123, y: 456 });
    assert_eq!(retrieved_data.len(), 0);
}

#[test]
fn test_push_assoc_buffer_overflow() {
    let mut buffer = [0u8; 64];
    let mut pool = U8Pool::new(&mut buffer, 2).unwrap();

    let key = Point { x: 42, y: 84 };
    let large_data = [0u8; 100];

    let result = pool.push_assoc(key, &large_data);
    assert!(matches!(result, Err(U8PoolError::BufferOverflow { .. })));
}

#[test]
fn test_pop_assoc_empty() {
    let mut buffer = [0u8; 64];
    let mut pool = U8Pool::new(&mut buffer, 4).unwrap();

    let result = pool.pop_assoc::<Point>();
    assert!(result.is_none());
}

#[test]
fn test_get_assoc_out_of_bounds() {
    let mut buffer = [0u8; 256];
    let mut pool = U8Pool::with_default_max_slices(&mut buffer).unwrap();

    pool.push_assoc(Point { x: 42, y: 84 }, b"data").unwrap();

    assert!(pool.get_assoc::<Point>(0).is_some());

    assert!(pool.get_assoc::<Point>(1).is_none());
    assert!(pool.get_assoc::<Point>(100).is_none());
}

#[test]
fn test_assoc_mixed_with_regular() {
    let mut buffer = [0u8; 256];
    let mut pool = U8Pool::with_default_max_slices(&mut buffer).unwrap();

    pool.push(b"regular1").unwrap();
    pool.push_assoc(Point { x: 100, y: 200 }, b"assoc1").unwrap();
    pool.push(b"regular2").unwrap();
    pool.push_assoc(Point { x: 300, y: 400 }, b"assoc2").unwrap();

    assert_eq!(pool.len(), 4);

    assert_eq!(pool.get(0).unwrap(), b"regular1");
    assert_eq!(pool.get(2).unwrap(), b"regular2");

    let (key1, data1) = pool.get_assoc::<Point>(1).unwrap();
    assert_eq!(key1, Point { x: 100, y: 200 });
    assert_eq!(data1, b"assoc1");

    let (key2, data2) = pool.get_assoc::<Point>(3).unwrap();
    assert_eq!(key2, Point { x: 300, y: 400 });
    assert_eq!(data2, b"assoc2");
}

#[test]
fn test_assoc_iterator_forward() {
    let mut buffer = [0u8; 256];
    let mut pool = U8Pool::with_default_max_slices(&mut buffer).unwrap();

    pool.push_assoc(Point { x: 10, y: 15 }, b"a").unwrap();
    pool.push_assoc(Point { x: 20, y: 25 }, b"bb").unwrap();
    pool.push_assoc(Point { x: 30, y: 35 }, b"ccc").unwrap();

    let items = collect_points(pool.iter_assoc::<Point>());

    assert_eq!(items.len(), 3);
    assert_eq!(items[0].0, Point { x: 10, y: 15 });
    assert_eq!(items[0].1, b"a");
    assert_eq!(items[1].0, Point { x: 20, y: 25 });
    assert_eq!(items[1].1, b"bb");
    assert_eq!(items[2].0, Point { x: 30, y: 35 });
    assert_eq!(items[2].1, b"ccc");
}

#[test]
fn test_assoc_iterator_reverse() {
    let mut buffer = [0u8; 256];
    let mut pool = U8Pool::with_default_max_slices(&mut buffer).unwrap();

    pool.push_assoc(Point { x: 10, y: 15 }, b"a").unwrap();
    pool.push_assoc(Point { x: 20, y: 25 }, b"bb").unwrap();
    pool.push_assoc(Point { x: 30, y: 35 }, b"ccc").unwrap();

    let items = collect_points_rev(pool.iter_assoc_rev::<Point>());

    assert_eq!(items.len(), 3);
    assert_eq!(items[0].0, Point { x: 30, y: 35 });
    assert_eq!(items[0].1, b"ccc");
    assert_eq!(items[1].0, Point { x: 20, y: 25 });
    assert_eq!(items[1].1, b"bb");
    assert_eq!(items[2].0, Point { x: 10, y: 15 });
    assert_eq!(items[2].1, b"a");
}

#[test]
fn test_assoc_iterator_empty() {
    let mut buffer = [0u8; 64];
    let pool = U8Pool::new(&mut buffer, 4).unwrap();

    let items = collect_points(pool.iter_assoc::<Point>());
    assert_eq!(items.len(), 0);

    let items_rev = collect_points_rev(pool.iter_assoc_rev::<Point>());
    assert_eq!(items_rev.len(), 0);
}

#[test]
fn test_assoc_size_hint() {
    let mut buffer = [0u8; 256];
    let mut pool = U8Pool::with_default_max_slices(&mut buffer).unwrap();

    pool.push_assoc(Point { x: 1, y: 2 }, b"a").unwrap();
    pool.push_assoc(Point { x: 3, y: 4 }, b"b").unwrap();

    let iter = pool.iter_assoc::<Point>();
    assert_eq!(iter.size_hint(), (2, Some(2)));

    let iter_rev = pool.iter_assoc_rev::<Point>();
    assert_eq!(iter_rev.size_hint(), (2, Some(2)));
}

#[test]
fn test_assoc_slice_limit_exceeded() {
    let mut buffer = [0u8; 1024];
    let mut pool = U8Pool::new(&mut buffer, 2).unwrap();

    pool.push_assoc(Point { x: 1, y: 10 }, b"first").unwrap();
    pool.push_assoc(Point { x: 2, y: 20 }, b"second").unwrap();

    let result = pool.push_assoc(Point { x: 3, y: 30 }, b"third");
    assert!(matches!(result, Err(U8PoolError::SliceLimitExceeded { max_slices: 2 })));
}

#[test]
fn test_alignment_padding() {
    let mut buffer = [0xAA; 1024]; // Non-zero pattern to see which bytes were written
    let mut pool = U8Pool::with_default_max_slices(&mut buffer).unwrap();

    // A single byte first, to misalign what follows
    pool.push(b"x").unwrap();

    pool.push_assoc(SingleByte { value: 0x42 }, b"single").unwrap();
    pool.push_assoc(TwoBytes { value: 0x1234 }, b"two").unwrap();
    pool.push_assoc(FourBytes { value: 0x12345678 }, b"four").unwrap();
    pool.push_assoc(EightBytes { value: 0x123456789ABCDEF0 }, b"eight").unwrap();
    pool.push_assoc(SingleByte { value: 0xFF }, b"y").unwrap();
    pool.push_assoc(
        ComplexStruct { small: 0x12, big: 0xFEDCBA9876543210, medium: 0x87654321 },
        b"complex",
    )
    .unwrap();

    let (complex_val, complex_data) = pool.pop_assoc::<ComplexStruct>().unwrap();
    assert_eq!(complex_val.small, 0x12);
    assert_eq!(complex_val.big, 0xFEDCBA9876543210);
    assert_eq!(complex_val.medium, 0x87654321);
    assert_eq!(complex_data, b"complex");

    let (single_y_val, single_y_data) = pool.pop_assoc::<SingleByte>().unwrap();
    assert_eq!(single_y_val.value, 0xFF);
    assert_eq!(single_y_data, b"y");

    let (eight_val, eight_data) = pool.pop_assoc::<EightBytes>().unwrap();
    assert_eq!(eight_val.value, 0x123456789ABCDEF0);
    assert_eq!(eight_data, b"eight");

    let (four_val, four_data) = pool.pop_assoc::<FourBytes>().unwrap();
    assert_eq!(four_val.value, 0x12345678);
    assert_eq!(four_data, b"four");

    let (two_val, two_data) = pool.pop_assoc::<TwoBytes>().unwrap();
    assert_eq!(two_val.value, 0x1234);
    assert_eq!(two_data, b"two");

    let (single_val, single_data) = pool.pop_assoc::<SingleByte>().unwrap();
    assert_eq!(single_val.value, 0x42);
    assert_eq!(single_data, b"single");

    let x_data = pool.pop().unwrap();
    assert_eq!(x_data, b"x");

    // The descriptor block is at the start of the buffer: 4 bytes per slice,
    // a little-endian start and a little-endian length.
    let desc2_start = u16::from_le_bytes([buffer[8], buffer[9]]) as usize;
    let desc3_start = u16::from_le_bytes([buffer[12], buffer[13]]) as usize;
    let desc4_start = u16::from_le_bytes([buffer[16], buffer[17]]) as usize;
    let desc6_start = u16::from_le_bytes([buffer[24], buffer[25]]) as usize;

    let data_offset = 28;

    if desc2_start % 2 != 0 {
        panic!("TwoBytes desc2_start {} is not 2-byte aligned!", desc2_start);
    }
    if desc3_start % 4 != 0 {
        panic!("FourBytes desc3_start {} is not 4-byte aligned!", desc3_start);
    }
    if desc4_start % 8 != 0 {
        panic!("EightBytes desc4_start {} is not 8-byte aligned!", desc4_start);
    }
    if desc6_start % 8 != 0 {
        panic!("ComplexStruct desc6_start {} is not 8-byte aligned!", desc6_start);
    }

    assert_eq!(
        buffer[data_offset + desc2_start - 1],
        0xAA,
        "1 padding byte before TwoBytes should be untouched"
    );
    assert_eq!(
        buffer[data_offset + desc3_start - 3],
        0xAA,
        "Padding byte 1 before FourBytes should be untouched"
    );
    assert_eq!(
        buffer[data_offset + desc3_start - 2],
        0xAA,
        "Padding byte 2 before FourBytes should be untouched"
    );
    assert_eq!(
        buffer[data_offset + desc3_start - 1],
        0xAA,
        "Padding byte 3 before FourBytes should be untouched"
    );
    for i in 1..=7 {
        assert_eq!(
            buffer[data_offset + desc4_start - i],
            0xAA,
            "Padding byte {} before EightBytes should be untouched",
            i
        );
    }
    for i in 1..=7 {
        assert_eq!(
            buffer[data_offset + desc6_start - i],
            0xAA,
            "Padding byte {} before ComplexStruct should be untouched",
            i
        );
    }
}

#[test]
fn test_assoc_iterator_clone() {
    let mut buffer = [0u8; 600];
    let mut u8pool = U8Pool::with_default_max_slices(&mut buffer).unwrap();

    u8pool.push_assoc(Point { x: 10, y: 20 }, b"first").unwrap();
    u8pool.push_assoc(Point { x: 30, y: 40 }, b"second").unwrap();

    let mut iter1 = u8pool.iter_assoc::<Point>();
    let iter2 = iter1.clone();

    assert_eq!(iter1.size_hint(), iter2.size_hint());
    assert_eq!(iter1.size_hint(), (2, Some(2)));

    let (val, data) = iter1.next().unwrap();
    assert_eq!(val, Point { x: 10, y: 20 });
    assert_eq!(data, b"first");
    assert_eq!(iter1.size_hint(), (1, Some(1)));

    let mut iter2_clone = iter2.clone();
    assert_eq!(iter2_clone.size_hint(), (2, Some(2)));
    let (val, data) = iter2_clone.next().unwrap();
    assert_eq!(val, Point { x: 10, y: 20 });
    assert_eq!(data, b"first");

    let (val, data) = iter1.next().unwrap();
    assert_eq!(val, Point { x: 30, y: 40 });
    assert_eq!(data, b"second");
    assert!(iter1.next().is_none());
}

#[test]
fn test_assoc_reverse_iterator_clone() {
    let mut buffer = [0u8; 600];
    let mut u8pool = U8Pool::with_default_max_slices(&mut buffer).unwrap();

    u8pool.push_assoc(Point { x: 10, y: 20 }, b"first").unwrap();
    u8pool.push_assoc(Point { x: 30, y: 40 }, b"second").unwrap();

    let mut iter1 = u8pool.iter_assoc_rev::<Point>();
    let iter2 = iter1.clone();

    assert_eq!(iter1.size_hint(), iter2.size_hint());
    assert_eq!(iter1.size_hint(), (2, Some(2)));

    let (val, data) = iter1.next().unwrap();
    assert_eq!(val, Point { x: 30, y: 40 });
    assert_eq!(data, b"second");
    assert_eq!(iter1.size_hint(), (1, Some(1)));

    let mut iter2_clone = iter2.clone();
    assert_eq!(iter2_clone.size_hint(), (2, Some(2)));
    let (val, data) = iter2_clone.next().unwrap();
    assert_eq!(val, Point { x: 30, y: 40 });
    assert_eq!(data, b"second");

    let (val, data) = iter1.next().unwrap();
    assert_eq!(val, Point { x: 10, y: 20 });
    assert_eq!(data, b"first");
    assert!(iter1.next().is_none());
}
