use vstd::prelude::*;

verus! {

/// A value that can be stored in front of a slice in a `U8Pool`, as a fixed
/// number of bytes with a fixed alignment.
pub trait AssocValue: Sized {
    /// Number of bytes of the encoding.
    spec fn spec_size() -> nat;

    /// Alignment of the encoding's start in the data area.
    spec fn spec_align() -> nat;

    /// The encoding of a value.
    spec fn spec_encode(&self) -> Seq<u8>;

    /// The value that a sequence of bytes decodes to.
    spec fn spec_decode(bytes: Seq<u8>) -> Self;

    fn assoc_size() -> (r: usize)
        ensures
            r == Self::spec_size(),
    ;

    fn assoc_align() -> (r: usize)
        ensures
            r == Self::spec_align(),
            r >= 1,
    ;

    fn encoded_byte(&self, i: usize) -> (r: u8)
        requires
            i < Self::spec_size(),
        ensures
            r == self.spec_encode()[i as int],
    ;

    fn decode(bytes: &[u8]) -> (r: Self)
        requires
            bytes@.len() == Self::spec_size(),
        ensures
            r == Self::spec_decode(bytes@),
    ;

    proof fn lemma_encode_decode(v: Self)
        ensures
            v.spec_encode().len() == Self::spec_size(),
            Self::spec_decode(v.spec_encode()) == v,
            Self::spec_align() >= 1,
    ;
}

} // verus!

verus! {

impl AssocValue for u8 {
    open spec fn spec_size() -> nat {
        1
    }

    open spec fn spec_align() -> nat {
        1
    }

    open spec fn spec_encode(&self) -> Seq<u8> {
        seq![*self]
    }

    open spec fn spec_decode(bytes: Seq<u8>) -> u8 {
        bytes[0]
    }

    fn assoc_size() -> (r: usize) {
        1
    }

    fn assoc_align() -> (r: usize) {
        1
    }

    fn encoded_byte(&self, i: usize) -> (r: u8) {
        *self
    }

    fn decode(bytes: &[u8]) -> (r: u8) {
        bytes[0]
    }

    proof fn lemma_encode_decode(v: u8) {
    }
}

impl AssocValue for u16 {
    open spec fn spec_size() -> nat {
        2
    }

    open spec fn spec_align() -> nat {
        2
    }

    open spec fn spec_encode(&self) -> Seq<u8> {
        seq![(*self % 256) as u8, (*self / 256) as u8]
    }

    open spec fn spec_decode(bytes: Seq<u8>) -> u16 {
        (bytes[0] as int + bytes[1] as int * 256) as u16
    }

    fn assoc_size() -> (r: usize) {
        2
    }

    fn assoc_align() -> (r: usize) {
        2
    }

    fn encoded_byte(&self, i: usize) -> (r: u8) {
        if i == 0 {
            (*self % 256) as u8
        } else {
            (*self / 256) as u8
        }
    }

    fn decode(bytes: &[u8]) -> (r: u16) {
        bytes[0] as u16 + bytes[1] as u16 * 256
    }

    proof fn lemma_encode_decode(v: u16) {
    }
}

} // verus!
