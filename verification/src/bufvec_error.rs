use vstd::prelude::*;
use vstd::string::StringSliceAdditionalSpecFns;
use vstd::utf8::{
    decode_utf8, encode_utf8_valid_utf8, is_leading_byte_width_1, partial_valid_utf8,
    partial_valid_utf8_extend_ascii_block, valid_utf8, valid_utf8_concat,
};

verus! {

/// Error types for `BufVec` operations.
#[derive(Debug, PartialEq, Eq, Clone)]
pub enum BufVecError {
    /// Buffer has insufficient space for the requested operation.
    BufferOverflow {
        /// Number of bytes requested.
        requested: usize,
        /// Number of bytes available.
        available: usize,
    },
    /// Index is beyond the current vector length.
    IndexOutOfBounds {
        /// Index that was accessed.
        index: usize,
        /// Current length of the vector.
        length: usize,
    },
    /// Operation attempted on an empty vector.
    EmptyVector,
    /// Buffer is too small to hold the required metadata.
    BufferTooSmall {
        /// Minimum buffer size required.
        required: usize,
        /// Actual buffer size provided.
        provided: usize,
    },
    /// Maximum number of slices has been reached.
    SliceLimitExceeded {
        /// Maximum number of slices allowed.
        max_slices: usize,
    },
    /// Zero-size buffer provided where data storage is required.
    ZeroSizeBuffer,
    /// Invalid configuration parameter.
    InvalidConfiguration {
        /// Description of the invalid parameter.
        parameter: &'static str,
        /// Provided value.
        value: usize,
    },
}

/// The decimal digits of `n`, most significant first, as ASCII bytes.
pub open spec fn decimal(n: nat) -> Seq<u8>
    decreases n,
{
    if n < 10 {
        seq![(48 + n) as u8]
    } else {
        decimal(n / 10).push((48 + n % 10) as u8)
    }
}

/// The UTF-8 text of the message of `e`.
pub open spec fn spec_message(e: BufVecError) -> Seq<u8> {
    match e {
        BufVecError::BufferOverflow { requested, available } => "Buffer overflow: requested ".spec_bytes()
            + decimal(requested as nat) + " bytes, but only ".spec_bytes() + decimal(available as nat)
            + " bytes available".spec_bytes(),
        BufVecError::IndexOutOfBounds { index, length } => "Index ".spec_bytes() + decimal(
            index as nat,
        ) + " out of bounds for vector of length ".spec_bytes() + decimal(length as nat),
        BufVecError::EmptyVector => "Operation attempted on an empty vector".spec_bytes(),
        BufVecError::BufferTooSmall { required, provided } => "Buffer too small: ".spec_bytes()
            + decimal(required as nat) + " bytes required, ".spec_bytes() + decimal(provided as nat)
            + " bytes provided".spec_bytes(),
        BufVecError::SliceLimitExceeded { max_slices } => "Slice limit exceeded: maximum ".spec_bytes()
            + decimal(max_slices as nat) + " slices allowed".spec_bytes(),
        BufVecError::ZeroSizeBuffer => "Zero-size buffer provided where data storage is required".spec_bytes(),
        BufVecError::InvalidConfiguration { parameter, value } =>
            "Invalid configuration: parameter '".spec_bytes() + parameter.spec_bytes()
            + "' has invalid value ".spec_bytes() + decimal(value as nat),
    }
}

proof fn lemma_decimal_ascii(n: nat)
    ensures
        forall|i: int| 0 <= i < decimal(n).len() ==> #[trigger] decimal(n)[i] < 128,
        decimal(n).len() >= 1,
    decreases n,
{
    if n >= 10 {
        lemma_decimal_ascii(n / 10);
    }
}

proof fn lemma_ascii_valid(bytes: Seq<u8>)
    requires
        forall|i: int| 0 <= i < bytes.len() ==> #[trigger] bytes[i] < 128,
    ensures
        valid_utf8(bytes),
{
    assert(bytes.subrange(0, 0) =~= Seq::<u8>::empty());
    assert(partial_valid_utf8(bytes, 0));
    assert forall|i: int| 0 <= 0 <= i < bytes.len() <= bytes.len() implies #[trigger] is_leading_byte_width_1(
        bytes[i],
    ) by {
        assert(bytes[i] < 128);
    }
    partial_valid_utf8_extend_ascii_block(bytes, 0, bytes.len() as int);
    assert(bytes.subrange(0, bytes.len() as int) =~= bytes);
}

proof fn lemma_decimal_valid(n: nat)
    ensures
        valid_utf8(decimal(n)),
{
    lemma_decimal_ascii(n);
    lemma_ascii_valid(decimal(n));
}

proof fn lemma_text_valid(s: &str)
    ensures
        valid_utf8(s.spec_bytes()),
{
    encode_utf8_valid_utf8(s@);
}

proof fn lemma_message_valid(e: BufVecError)
    ensures
        valid_utf8(spec_message(e)),
{
    match e {
        BufVecError::BufferOverflow { requested, available } => {
            lemma_text_valid("Buffer overflow: requested ");
            lemma_text_valid(" bytes, but only ");
            lemma_text_valid(" bytes available");
            lemma_decimal_valid(requested as nat);
            lemma_decimal_valid(available as nat);
            let a = "Buffer overflow: requested ".spec_bytes();
            valid_utf8_concat(a, decimal(requested as nat));
            let a = a + decimal(requested as nat);
            valid_utf8_concat(a, " bytes, but only ".spec_bytes());
            let a = a + " bytes, but only ".spec_bytes();
            valid_utf8_concat(a, decimal(available as nat));
            let a = a + decimal(available as nat);
            valid_utf8_concat(a, " bytes available".spec_bytes());
        },
        BufVecError::IndexOutOfBounds { index, length } => {
            lemma_text_valid("Index ");
            lemma_text_valid(" out of bounds for vector of length ");
            lemma_decimal_valid(index as nat);
            lemma_decimal_valid(length as nat);
            let a = "Index ".spec_bytes();
            valid_utf8_concat(a, decimal(index as nat));
            let a = a + decimal(index as nat);
            valid_utf8_concat(a, " out of bounds for vector of length ".spec_bytes());
            let a = a + " out of bounds for vector of length ".spec_bytes();
            valid_utf8_concat(a, decimal(length as nat));
        },
        BufVecError::EmptyVector => {
            lemma_text_valid("Operation attempted on an empty vector");
        },
        BufVecError::BufferTooSmall { required, provided } => {
            lemma_text_valid("Buffer too small: ");
            lemma_text_valid(" bytes required, ");
            lemma_text_valid(" bytes provided");
            lemma_decimal_valid(required as nat);
            lemma_decimal_valid(provided as nat);
            let a = "Buffer too small: ".spec_bytes();
            valid_utf8_concat(a, decimal(required as nat));
            let a = a + decimal(required as nat);
            valid_utf8_concat(a, " bytes required, ".spec_bytes());
            let a = a + " bytes required, ".spec_bytes();
            valid_utf8_concat(a, decimal(provided as nat));
            let a = a + decimal(provided as nat);
            valid_utf8_concat(a, " bytes provided".spec_bytes());
        },
        BufVecError::SliceLimitExceeded { max_slices } => {
            lemma_text_valid("Slice limit exceeded: maximum ");
            lemma_text_valid(" slices allowed");
            lemma_decimal_valid(max_slices as nat);
            let a = "Slice limit exceeded: maximum ".spec_bytes();
            valid_utf8_concat(a, decimal(max_slices as nat));
            let a = a + decimal(max_slices as nat);
            valid_utf8_concat(a, " slices allowed".spec_bytes());
        },
        BufVecError::ZeroSizeBuffer => {
            lemma_text_valid("Zero-size buffer provided where data storage is required");
        },
        BufVecError::InvalidConfiguration { parameter, value } => {
            lemma_text_valid("Invalid configuration: parameter '");
            lemma_text_valid(parameter);
            lemma_text_valid("' has invalid value ");
            lemma_decimal_valid(value as nat);
            let a = "Invalid configuration: parameter '".spec_bytes();
            valid_utf8_concat(a, parameter.spec_bytes());
            let a = a + parameter.spec_bytes();
            valid_utf8_concat(a, "' has invalid value ".spec_bytes());
            let a = a + "' has invalid value ".spec_bytes();
            valid_utf8_concat(a, decimal(value as nat));
        },
    }
}

/// Appends `bytes` to `out`.
fn append_bytes(out: &mut Vec<u8>, bytes: &[u8])
    ensures
        final(out)@ == old(out)@ + bytes@,
{
    let ghost start = out@;
    let n = bytes.len();
    let mut k: usize = 0;
    while k < n
        invariant
            n == bytes@.len(),
            0 <= k <= n,
            out@ == start + bytes@.subrange(0, k as int),
        decreases n - k,
    {
        out.push(bytes[k]);
        k = k + 1;
        assert(out@ =~= start + bytes@.subrange(0, k as int));
    }
    assert(bytes@.subrange(0, n as int) =~= bytes@);
}

/// Appends `text` to `out`.
fn append_text(out: &mut Vec<u8>, text: &str)
    ensures
        final(out)@ == old(out)@ + text.spec_bytes(),
{
    append_bytes(out, text.as_bytes());
}

/// Appends the decimal digits of `n` to `out`.
fn append_decimal(out: &mut Vec<u8>, n: usize)
    ensures
        final(out)@ == old(out)@ + decimal(n as nat),
    decreases n,
{
    if n >= 10 {
        append_decimal(out, n / 10);
    }
    let digit: u8 = (n % 10) as u8;
    out.push(48u8 + digit);
    proof {
        if n >= 10 {
            assert(old(out)@ + decimal(n as nat) =~= old(out)@ + decimal((n / 10) as nat) + seq![
                (48 + n % 10) as u8,
            ]);
        } else {
            assert(old(out)@ + decimal(n as nat) =~= old(out)@.push((48 + n) as u8));
        }
    }
}

/// `String::from_utf8`: the text of valid UTF-8 bytes.
#[verifier::external_body]
fn string_from_utf8(bytes: Vec<u8>) -> (s: String)
    requires
        valid_utf8(bytes@),
    ensures
        s@ == decode_utf8(bytes@),
{
    match String::from_utf8(bytes) {
        Ok(s) => s,
        Err(_) => String::new(),
    }
}

impl BufVecError {
    /// A description of the error, for display.
    pub fn message(&self) -> (r: String)
        ensures
            r@ == decode_utf8(spec_message(*self)),
    {
        let mut out: Vec<u8> = Vec::new();
        match self {
            BufVecError::BufferOverflow { requested, available } => {
                append_text(&mut out, "Buffer overflow: requested ");
                append_decimal(&mut out, *requested);
                append_text(&mut out, " bytes, but only ");
                append_decimal(&mut out, *available);
                append_text(&mut out, " bytes available");
            },
            BufVecError::IndexOutOfBounds { index, length } => {
                append_text(&mut out, "Index ");
                append_decimal(&mut out, *index);
                append_text(&mut out, " out of bounds for vector of length ");
                append_decimal(&mut out, *length);
            },
            BufVecError::EmptyVector => {
                append_text(&mut out, "Operation attempted on an empty vector");
            },
            BufVecError::BufferTooSmall { required, provided } => {
                append_text(&mut out, "Buffer too small: ");
                append_decimal(&mut out, *required);
                append_text(&mut out, " bytes required, ");
                append_decimal(&mut out, *provided);
                append_text(&mut out, " bytes provided");
            },
            BufVecError::SliceLimitExceeded { max_slices } => {
                append_text(&mut out, "Slice limit exceeded: maximum ");
                append_decimal(&mut out, *max_slices);
                append_text(&mut out, " slices allowed");
            },
            BufVecError::ZeroSizeBuffer => {
                append_text(&mut out, "Zero-size buffer provided where data storage is required");
            },
            BufVecError::InvalidConfiguration { parameter, value } => {
                append_text(&mut out, "Invalid configuration: parameter '");
                append_text(&mut out, *parameter);
                append_text(&mut out, "' has invalid value ");
                append_decimal(&mut out, *value);
            },
        }
        proof {
            assert(out@ =~= spec_message(*self));
            lemma_message_valid(*self);
        }
        string_from_utf8(out)
    }
}

} // verus!
