use vstd::prelude::*;

use crate::buffer::{spec_is_ascii_whitespace, Buffer, ChangeFlag};
use crate::io::{IoError, Reader, Writer};
use crate::rjiter_error::{
    can_retry_if_partial, error_type_of, spec_can_retry_if_partial, Error, ErrorType,
    JsonErrorKind, LinePosition, TokenError,
};
use crate::tokenizer::{
    call_array_step, call_finish, call_find_position, call_known_array, call_known_bool, call_known_bytes, call_known_int, call_known_null, call_known_object, call_known_skip, call_known_str, call_next_array, call_next_bool, call_next_bytes, call_next_int, call_next_key, call_next_key_bytes, call_next_null, call_next_number_bytes, call_next_object, call_next_object_bytes, call_next_skip, call_next_str, call_peek, jiter_array_step, jiter_finish, jiter_known_array, jiter_known_bool, jiter_known_bytes, jiter_known_int, jiter_known_null, jiter_known_object, jiter_known_skip, jiter_known_str, jiter_next_array, jiter_next_bool, jiter_next_bytes, jiter_next_int, jiter_next_key, jiter_next_key_bytes, jiter_next_null, jiter_next_number_bytes, jiter_next_object, jiter_next_object_bytes, jiter_next_skip, jiter_next_str, jiter_peek, spec_find_position, IntView, NumberInt, Peeked,
};

verus! {

/// A tokenizer operation, applied at the tokenizer's position.
#[derive(Debug, Clone, Copy, PartialEq, Eq, Structural)]
pub enum Op {
    Peek,
    KnownArray,
    KnownBool(Peeked),
    KnownBytes,
    KnownInt(Peeked),
    KnownNull,
    KnownObject,
    KnownSkip(Peeked),
    KnownStr,
    NextArray,
    ArrayStep,
    NextBool,
    NextBytes,
    NextInt,
    NextKey,
    NextKeyBytes,
    NextNull,
    NextNumberBytes,
    NextObject,
    NextObjectBytes,
    NextSkip,
    NextStr,
}

/// The value of a successful tokenizer operation.
#[derive(Debug)]
pub enum Outcome {
    Unit,
    Peek(Peeked),
    Bool(bool),
    Int(NumberInt),
    OptPeek(Option<Peeked>),
    Bytes(Vec<u8>),
    OptBytes(Option<Vec<u8>>),
    Text(String),
    OptText(Option<String>),
}

pub open spec fn unit_result(out: (Result<(), TokenError>, usize), res: Result<Outcome, TokenError>, idx: usize) -> bool {
    match res {
        Ok(Outcome::Unit) => out.0 is Ok && out.1 == idx,
        Ok(_) => false,
        Err(e) => out.0 == Err::<(), TokenError>(e) && out.1 == idx,
    }
}

pub open spec fn peek_result(out: (Result<Peeked, TokenError>, usize), res: Result<Outcome, TokenError>, idx: usize) -> bool {
    match res {
        Ok(Outcome::Peek(p)) => out == (Ok::<Peeked, TokenError>(p), idx),
        Ok(_) => false,
        Err(e) => out == (Err::<Peeked, TokenError>(e), idx),
    }
}

pub open spec fn bool_result(out: (Result<bool, TokenError>, usize), res: Result<Outcome, TokenError>, idx: usize) -> bool {
    match res {
        Ok(Outcome::Bool(b)) => out == (Ok::<bool, TokenError>(b), idx),
        Ok(_) => false,
        Err(e) => out == (Err::<bool, TokenError>(e), idx),
    }
}

pub open spec fn int_result(out: (Result<IntView, TokenError>, usize), res: Result<Outcome, TokenError>, idx: usize) -> bool {
    match res {
        Ok(Outcome::Int(n)) => out == (Ok::<IntView, TokenError>(n.view_int()), idx),
        Ok(_) => false,
        Err(e) => out == (Err::<IntView, TokenError>(e), idx),
    }
}

pub open spec fn opt_peek_result(
    out: (Result<Option<Peeked>, TokenError>, usize),
    res: Result<Outcome, TokenError>,
    idx: usize,
) -> bool {
    match res {
        Ok(Outcome::OptPeek(p)) => out == (Ok::<Option<Peeked>, TokenError>(p), idx),
        Ok(_) => false,
        Err(e) => out == (Err::<Option<Peeked>, TokenError>(e), idx),
    }
}

pub open spec fn bytes_result(out: (Result<Seq<u8>, TokenError>, usize), res: Result<Outcome, TokenError>, idx: usize) -> bool {
    match res {
        Ok(Outcome::Bytes(b)) => out == (Ok::<Seq<u8>, TokenError>(b@), idx),
        Ok(_) => false,
        Err(e) => out == (Err::<Seq<u8>, TokenError>(e), idx),
    }
}

pub open spec fn opt_bytes_result(
    out: (Result<Option<Seq<u8>>, TokenError>, usize),
    res: Result<Outcome, TokenError>,
    idx: usize,
) -> bool {
    match res {
        Ok(Outcome::OptBytes(Some(b))) => out == (Ok::<Option<Seq<u8>>, TokenError>(Some(b@)), idx),
        Ok(Outcome::OptBytes(None)) => out == (Ok::<Option<Seq<u8>>, TokenError>(None), idx),
        Ok(_) => false,
        Err(e) => out == (Err::<Option<Seq<u8>>, TokenError>(e), idx),
    }
}

pub open spec fn text_result(out: (Result<Seq<char>, TokenError>, usize), res: Result<Outcome, TokenError>, idx: usize) -> bool {
    match res {
        Ok(Outcome::Text(s)) => out == (Ok::<Seq<char>, TokenError>(s@), idx),
        Ok(_) => false,
        Err(e) => out == (Err::<Seq<char>, TokenError>(e), idx),
    }
}

pub open spec fn opt_text_result(
    out: (Result<Option<Seq<char>>, TokenError>, usize),
    res: Result<Outcome, TokenError>,
    idx: usize,
) -> bool {
    match res {
        Ok(Outcome::OptText(Some(s))) => out == (Ok::<Option<Seq<char>>, TokenError>(Some(s@)), idx),
        Ok(Outcome::OptText(None)) => out == (Ok::<Option<Seq<char>>, TokenError>(None), idx),
        Ok(_) => false,
        Err(e) => out == (Err::<Option<Seq<char>>, TokenError>(e), idx),
    }
}

/// Whether `res`, with the tokenizer reaching `idx`, is what the tokenizer gives
/// for `op` on the bytes `window`.
pub open spec fn op_result(op: Op, window: Seq<u8>, res: Result<Outcome, TokenError>, idx: usize) -> bool {
    match op {
        Op::Peek => peek_result(jiter_peek(window), res, idx),
        Op::KnownArray => opt_peek_result(jiter_known_array(window), res, idx),
        Op::KnownBool(p) => bool_result(jiter_known_bool(window, p.spec_byte()), res, idx),
        Op::KnownBytes => bytes_result(jiter_known_bytes(window), res, idx),
        Op::KnownInt(p) => int_result(jiter_known_int(window, p.spec_byte()), res, idx),
        Op::KnownNull => unit_result(jiter_known_null(window), res, idx),
        Op::KnownObject => opt_text_result(jiter_known_object(window), res, idx),
        Op::KnownSkip(p) => unit_result(jiter_known_skip(window, p.spec_byte()), res, idx),
        Op::KnownStr => text_result(jiter_known_str(window), res, idx),
        Op::NextArray => opt_peek_result(jiter_next_array(window), res, idx),
        Op::ArrayStep => opt_peek_result(jiter_array_step(window), res, idx),
        Op::NextBool => bool_result(jiter_next_bool(window), res, idx),
        Op::NextBytes => bytes_result(jiter_next_bytes(window), res, idx),
        Op::NextInt => int_result(jiter_next_int(window), res, idx),
        Op::NextKey => opt_text_result(jiter_next_key(window), res, idx),
        Op::NextKeyBytes => opt_bytes_result(jiter_next_key_bytes(window), res, idx),
        Op::NextNull => unit_result(jiter_next_null(window), res, idx),
        Op::NextNumberBytes => bytes_result(jiter_next_number_bytes(window), res, idx),
        Op::NextObject => opt_text_result(jiter_next_object(window), res, idx),
        Op::NextObjectBytes => opt_bytes_result(jiter_next_object_bytes(window), res, idx),
        Op::NextSkip => unit_result(jiter_next_skip(window), res, idx),
        Op::NextStr => text_result(jiter_next_str(window), res, idx),
    }
}

/// Whether every byte of `s` is ASCII whitespace.
pub open spec fn all_ws(s: Seq<u8>) -> bool {
    forall|k: int| 0 <= k < s.len() ==> spec_is_ascii_whitespace(#[trigger] s[k])
}

/// Whether `after` is `before` without its first `a` bytes, which are whitespace; or,
/// with the token `tok` at `a`, without the whitespace from `a + 1` to `b` as well.
pub open spec fn ws_cut(before: Seq<u8>, after: Seq<u8>, tok: Option<u8>, a: int, b: int) -> bool {
    &&& 0 <= a <= b <= before.len()
    &&& all_ws(before.subrange(0, a))
    &&& if a == b {
        after == before.subrange(a, before.len() as int)
    } else {
        &&& tok matches Some(t) && before[a] == t
        &&& all_ws(before.subrange(a + 1, b))
        &&& after == seq![before[a]] + before.subrange(b, before.len() as int)
    }
}

/// Whether `after` is the stream `before` with its leading whitespace dropped, and,
/// if the token `tok` comes next, the whitespace after that token too.
pub open spec fn ws_skipped(before: Seq<u8>, after: Seq<u8>, tok: Option<u8>) -> bool {
    exists|a: int, b: int| #[trigger] ws_cut(before, after, tok, a, b)
}

/// Whether the tokenizer, applied for `op` with the transparent token `tok` to the
/// stream `rem0`, gave `res` and stopped at `new_pos` of `data`: it read the bytes
/// from a position `start` of `data`, and those bytes with `pending` after them are
/// `rem0` with its leading whitespace dropped (see `ws_skipped`).
pub open spec fn stream_step(
    op: Op,
    tok: Option<u8>,
    rem0: Seq<u8>,
    data: Seq<u8>,
    pending: Seq<u8>,
    new_pos: int,
    res: Result<Outcome, TokenError>,
) -> bool {
    exists|start: int|
        #![trigger data.subrange(start, data.len() as int)]
        0 <= start <= data.len() && took_here(op, data, start, new_pos, res) && ws_skipped(
            rem0,
            data.subrange(start, data.len() as int) + pending,
            tok,
        )
}

/// Whether `t` is the type of a tokenizer error that more input could cure.
pub open spec fn retryable_type(t: ErrorType) -> bool {
    t matches ErrorType::JsonError(k) && crate::rjiter_error::spec_allowed_if_partial(k)
}

/// Dropping no whitespace at all.
pub proof fn lemma_ws_skipped_none(s: Seq<u8>, tok: Option<u8>)
    ensures
        ws_skipped(s, s, tok),
{
    assert(s.subrange(0, 0) =~= Seq::<u8>::empty());
    assert(s.subrange(0, s.len() as int) =~= s);
    assert(ws_cut(s, s, tok, 0, 0));
}

/// A step read at `start` of `data` is a step of the stream.
proof fn lemma_stream_step(
    op: Op,
    tok: Option<u8>,
    rem0: Seq<u8>,
    data: Seq<u8>,
    pending: Seq<u8>,
    start: int,
    new_pos: int,
    res: Result<Outcome, TokenError>,
)
    requires
        0 <= start <= data.len(),
        took_here(op, data, start, new_pos, res),
        ws_skipped(rem0, data.subrange(start, data.len() as int) + pending, tok),
    ensures
        stream_step(op, tok, rem0, data, pending, new_pos, res),
{
    assert(data.subrange(start, data.len() as int) == data.subrange(start, data.len() as int));
}

/// Whether `op` succeeds on the bytes from `pos` of `data` with a result that the
/// end of `data` does not cut short (with `eager`, that ends before the end of `data`).
pub open spec fn ok_here(op: Op, eager: bool, data: Seq<u8>, pos: int) -> bool {
    exists|v: Outcome, idx: usize|
        #[trigger] op_result(op, data.subrange(pos, data.len() as int), Ok(v), idx) && (!eager
            || pos + idx < data.len())
}

/// Whether `res` is what `op` gives on the bytes from `pos` of `data`, with the
/// tokenizer moving from `pos` to `new_pos`.
pub open spec fn took_here(op: Op, data: Seq<u8>, pos: int, new_pos: int, res: Result<Outcome, TokenError>) -> bool {
    exists|idx: usize|
        #[trigger] op_result(op, data.subrange(pos, data.len() as int), res, idx) && new_pos == clamp(
            pos + idx,
            data.len() as int,
        )
}

/// Whether `op` takes the first byte of its value from a peek and may succeed on an
/// empty window, leaving the tokenizer where it was.
pub open spec fn peek_only_ok(op: Op) -> bool {
    op is KnownInt || op is KnownSkip
}

/// Whether `v` is of the kind of value that `op` gives.
pub open spec fn kind_ok(op: Op, v: Outcome) -> bool {
    match op {
        Op::Peek => v is Peek,
        Op::KnownArray | Op::NextArray | Op::ArrayStep => v is OptPeek,
        Op::KnownBool(_) | Op::NextBool => v is Bool,
        Op::KnownInt(_) | Op::NextInt => v is Int,
        Op::KnownBytes | Op::NextBytes | Op::NextNumberBytes => v is Bytes,
        Op::KnownNull | Op::NextNull | Op::KnownSkip(_) | Op::NextSkip => v is Unit,
        Op::KnownObject | Op::NextObject | Op::NextKey => v is OptText,
        Op::KnownStr | Op::NextStr => v is Text,
        Op::NextKeyBytes | Op::NextObjectBytes => v is OptBytes,
    }
}

proof fn lemma_op_result_kind(op: Op, window: Seq<u8>, v: Outcome, idx: usize)
    requires
        op_result(op, window, Ok(v), idx),
    ensures
        kind_ok(op, v),
{
}

/// The tokenizer gives one outcome for an operation on given bytes.
proof fn lemma_op_result_unique(
    op: Op,
    window: Seq<u8>,
    r1: Result<Outcome, TokenError>,
    i1: usize,
    r2: Result<Outcome, TokenError>,
    i2: usize,
)
    requires
        op_result(op, window, r1, i1),
        op_result(op, window, r2, i2),
    ensures
        i1 == i2,
        r1 is Ok <==> r2 is Ok,
{
}

/// `v` limited to `n`.
pub open spec fn clamp(v: int, n: int) -> int {
    if v <= n {
        v
    } else {
        n
    }
}

/// Whether the tokenizer, applied for `op` at some position `start` of `data`, gave
/// `res` and moved to `pos`.
pub open spec fn token_step(op: Op, data: Seq<u8>, pos: int, res: Result<Outcome, TokenError>) -> bool {
    exists|start: int, idx: usize|
        #![trigger op_result(op, data.subrange(start, data.len() as int), res, idx)]
        0 <= start <= data.len() && op_result(op, data.subrange(start, data.len() as int), res, idx)
            && pos == clamp(start + idx, data.len() as int)
}

/// Whether `e` is an I/O error, or an error that the tokenizer gave for `op` at some
/// position of `data`.
pub open spec fn error_step(op: Op, data: Seq<u8>, e: Error) -> bool {
    ||| e.error_type == ErrorType::IoError(IoError)
    ||| exists|start: int, idx: usize, je: TokenError|
        #![trigger op_result(op, data.subrange(start, data.len() as int), Err(je), idx)]
        0 <= start <= data.len() && op_result(
            op,
            data.subrange(start, data.len() as int),
            Err(je),
            idx,
        ) && e.error_type == error_type_of(je.error_type)
}

/// Whether the tokenizer's end-of-input check succeeds at `start` of `data`.
pub open spec fn finish_ok_at(data: Seq<u8>, start: int) -> bool {
    0 <= start <= data.len() && jiter_finish(data.subrange(start, data.len() as int)).0 is Ok
}

/// Whether the tokenizer's end-of-input check fails at `start` of `data` with an
/// error of type `t`.
pub open spec fn finish_err_at(data: Seq<u8>, start: int, t: ErrorType) -> bool {
    &&& 0 <= start <= data.len()
    &&& match jiter_finish(data.subrange(start, data.len() as int)).0 {
        Err(je) => t == error_type_of(je.error_type),
        Ok(_) => false,
    }
}

/// Whether `tail` is what the tokenizer reads as the string at `start` of `data`:
/// its raw bytes, or with `decode`, the UTF-8 bytes of its decoded text.
pub open spec fn long_tail(decode: bool, data: Seq<u8>, start: int, tail: Seq<u8>) -> bool {
    &&& 0 <= start <= data.len()
    &&& if decode {
        match jiter_known_str(data.subrange(start, data.len() as int)).0 {
            Ok(chars) => tail == vstd::utf8::encode_utf8(chars),
            Err(_) => false,
        }
    } else {
        jiter_known_bytes(data.subrange(start, data.len() as int)).0 == Ok::<Seq<u8>, TokenError>(
            tail,
        )
    }
}

/// What the tokenizer reads as the string at the start of `window`: its raw bytes,
/// or with `decode`, the UTF-8 bytes of its decoded text.
pub open spec fn long_result(decode: bool, window: Seq<u8>) -> Result<Seq<u8>, TokenError> {
    if decode {
        match jiter_known_str(window).0 {
            Ok(chars) => Ok(vstd::utf8::encode_utf8(chars)),
            Err(e) => Err(e),
        }
    } else {
        jiter_known_bytes(window).0
    }
}

/// What copying the piece `seg` of a long string writes: its raw bytes, or with
/// `decode`, what the tokenizer decodes from it as a string of its own (its first
/// byte, the bytes, and a closing quote).
pub open spec fn seg_out(decode: bool, seg: (u8, Seq<u8>)) -> Seq<u8> {
    if decode {
        long_result(true, seq![seg.0] + seg.1 + seq![34u8])->Ok_0
    } else {
        seg.1
    }
}

/// What copying the pieces `segs` writes, in order.
pub open spec fn segs_out(decode: bool, segs: Seq<(u8, Seq<u8>)>) -> Seq<u8>
    decreases segs.len(),
{
    if segs.len() == 0 {
        Seq::empty()
    } else {
        segs_out(decode, segs.drop_last()) + seg_out(decode, segs.last())
    }
}

/// The raw bytes of the pieces `segs`, in order.
pub open spec fn segs_bytes(segs: Seq<(u8, Seq<u8>)>) -> Seq<u8>
    decreases segs.len(),
{
    if segs.len() == 0 {
        Seq::empty()
    } else {
        segs_bytes(segs.drop_last()) + segs.last().1
    }
}

/// Whether every piece decodes, with `decode`.
pub open spec fn segs_ok(decode: bool, segs: Seq<(u8, Seq<u8>)>) -> bool {
    decode ==> forall|i: int| 0 <= i < segs.len() ==> #[trigger] long_result(
        true,
        seq![segs[i].0] + segs[i].1 + seq![34u8],
    ) is Ok
}

/// Whether copying a long string wrote `after` from `before`: the pieces `segs`
/// copied one by one, whose raw bytes are what was shifted out after `prefix`,
/// then the rest of the string, `tail`, read at `start` of `data`.
pub open spec fn long_copy(
    decode: bool,
    prefix: Seq<u8>,
    removed: Seq<u8>,
    data: Seq<u8>,
    before: Seq<u8>,
    after: Seq<u8>,
    segs: Seq<(u8, Seq<u8>)>,
    start: int,
    tail: Seq<u8>,
) -> bool {
    &&& long_tail(decode, data, start, tail)
    &&& segs_ok(decode, segs)
    &&& after == before + segs_out(decode, segs) + tail
    &&& segs.len() > 0 ==> removed == prefix + segs_bytes(segs)
}

/// Whether `e` is an error that copying a long string can give: an I/O error, or
/// the error of the tokenizer reading a string from some bytes.
pub open spec fn long_error(decode: bool, e: Error) -> bool {
    ||| e.error_type == ErrorType::IoError(IoError)
    ||| exists|w: Seq<u8>|
        #[trigger] long_result(decode, w) is Err && e.error_type == error_type_of(
            long_result(decode, w)->Err_0.error_type,
        )
}

/// Applies `op` to `window` with a fresh tokenizer.
pub fn run_op(op: Op, window: &[u8]) -> (r: (Result<Outcome, TokenError>, usize))
    ensures
        op_result(op, window@, r.0, r.1),
        r.0 is Ok && op is Peek ==> r.1 < window@.len(),
        r.0 is Ok && !(op is Peek) ==> 1 <= r.1 && (r.1 <= window@.len() || (window@.len() == 0
            && r.1 == 1 && (op is KnownInt || op is KnownSkip))),
{
    match op {
        Op::Peek => {
            let (res, i) = call_peek(window);
            let out = match res {
                Ok(p) => Ok(Outcome::Peek(p)),
                Err(e) => Err(e),
            };
            (out, i)
        },
        Op::KnownArray => {
            let (res, i) = call_known_array(window);
            (
                match res {
                    Ok(p) => Ok(Outcome::OptPeek(p)),
                    Err(e) => Err(e),
                },
                i,
            )
        },
        Op::KnownBool(p) => {
            let (res, i) = call_known_bool(window, p.into_inner());
            (
                match res {
                    Ok(b) => Ok(Outcome::Bool(b)),
                    Err(e) => Err(e),
                },
                i,
            )
        },
        Op::KnownInt(p) => {
            let (res, i) = call_known_int(window, p.into_inner());
            (
                match res {
                    Ok(n) => Ok(Outcome::Int(n)),
                    Err(e) => Err(e),
                },
                i,
            )
        },
        Op::NextInt => {
            let (res, i) = call_next_int(window);
            (
                match res {
                    Ok(n) => Ok(Outcome::Int(n)),
                    Err(e) => Err(e),
                },
                i,
            )
        },
        Op::KnownBytes => {
            let (res, i) = call_known_bytes(window);
            (
                match res {
                    Ok(b) => Ok(Outcome::Bytes(b)),
                    Err(e) => Err(e),
                },
                i,
            )
        },
        Op::KnownNull => {
            let (res, i) = call_known_null(window);
            (
                match res {
                    Ok(()) => Ok(Outcome::Unit),
                    Err(e) => Err(e),
                },
                i,
            )
        },
        Op::KnownObject => {
            let (res, i) = call_known_object(window);
            (
                match res {
                    Ok(k) => Ok(Outcome::OptText(k)),
                    Err(e) => Err(e),
                },
                i,
            )
        },
        Op::KnownSkip(p) => {
            let (res, i) = call_known_skip(window, p.into_inner());
            (
                match res {
                    Ok(()) => Ok(Outcome::Unit),
                    Err(e) => Err(e),
                },
                i,
            )
        },
        Op::KnownStr => {
            let (res, i) = call_known_str(window);
            (
                match res {
                    Ok(s) => Ok(Outcome::Text(s)),
                    Err(e) => Err(e),
                },
                i,
            )
        },
        Op::NextArray => {
            let (res, i) = call_next_array(window);
            (
                match res {
                    Ok(p) => Ok(Outcome::OptPeek(p)),
                    Err(e) => Err(e),
                },
                i,
            )
        },
        Op::ArrayStep => {
            let (res, i) = call_array_step(window);
            (
                match res {
                    Ok(p) => Ok(Outcome::OptPeek(p)),
                    Err(e) => Err(e),
                },
                i,
            )
        },
        Op::NextBool => {
            let (res, i) = call_next_bool(window);
            (
                match res {
                    Ok(b) => Ok(Outcome::Bool(b)),
                    Err(e) => Err(e),
                },
                i,
            )
        },
        Op::NextBytes => {
            let (res, i) = call_next_bytes(window);
            (
                match res {
                    Ok(b) => Ok(Outcome::Bytes(b)),
                    Err(e) => Err(e),
                },
                i,
            )
        },
        Op::NextKey => {
            let (res, i) = call_next_key(window);
            (
                match res {
                    Ok(k) => Ok(Outcome::OptText(k)),
                    Err(e) => Err(e),
                },
                i,
            )
        },
        Op::NextKeyBytes => {
            let (res, i) = call_next_key_bytes(window);
            (
                match res {
                    Ok(k) => Ok(Outcome::OptBytes(k)),
                    Err(e) => Err(e),
                },
                i,
            )
        },
        Op::NextNull => {
            let (res, i) = call_next_null(window);
            (
                match res {
                    Ok(()) => Ok(Outcome::Unit),
                    Err(e) => Err(e),
                },
                i,
            )
        },
        Op::NextNumberBytes => {
            let (res, i) = call_next_number_bytes(window);
            (
                match res {
                    Ok(b) => Ok(Outcome::Bytes(b)),
                    Err(e) => Err(e),
                },
                i,
            )
        },
        Op::NextObject => {
            let (res, i) = call_next_object(window);
            (
                match res {
                    Ok(k) => Ok(Outcome::OptText(k)),
                    Err(e) => Err(e),
                },
                i,
            )
        },
        Op::NextObjectBytes => {
            let (res, i) = call_next_object_bytes(window);
            (
                match res {
                    Ok(k) => Ok(Outcome::OptBytes(k)),
                    Err(e) => Err(e),
                },
                i,
            )
        },
        Op::NextSkip => {
            let (res, i) = call_next_skip(window);
            (
                match res {
                    Ok(()) => Ok(Outcome::Unit),
                    Err(e) => Err(e),
                },
                i,
            )
        },
        Op::NextStr => {
            let (res, i) = call_next_str(window);
            (
                match res {
                    Ok(s) => Ok(Outcome::Text(s)),
                    Err(e) => Err(e),
                },
                i,
            )
        },
    }
}

/// A tokenizer error with its index moved from the tokenizer's window to the
/// buffer, saturating at `usize::MAX`.
fn rebase(e: TokenError, base: usize) -> (r: TokenError)
    ensures
        r.error_type == e.error_type,
        r.index == clamp(base + e.index, usize::MAX as int),
{
    TokenError { error_type: e.error_type, index: base.saturating_add(e.index) }
}

/// Streaming JSON tokenizer: a JSON tokenizer over a working buffer that is refilled
/// from a reader whenever a token does not fit in what was read so far.
pub struct RJiter<'rj, R: Reader> {
    buffer: Buffer<'rj, R>,
    pos: usize,
}

impl<'rj, R: Reader> RJiter<'rj, R> {
    /// The valid bytes of the working buffer.
    pub closed spec fn data(&self) -> Seq<u8> {
        self.buffer.data()
    }

    /// The tokenizer's position in the valid bytes.
    pub closed spec fn pos(&self) -> int {
        self.pos as int
    }

    /// The bytes shifted out of the working buffer.
    pub closed spec fn removed(&self) -> Seq<u8> {
        self.buffer.removed()
    }

    /// The bytes the reader has not delivered yet.
    pub closed spec fn pending(&self) -> Seq<u8> {
        self.buffer.pending()
    }

    /// Whether the reader always succeeds.
    pub closed spec fn reader_never_fails(&self) -> bool {
        self.buffer.reader_never_fails()
    }

    /// The size of the working buffer.
    pub closed spec fn capacity(&self) -> nat {
        self.buffer.capacity()
    }

    /// The bytes from the tokenizer's position on.
    pub open spec fn remaining(&self) -> Seq<u8> {
        self.data().subrange(self.pos(), self.data().len() as int) + self.pending()
    }

    /// The number of bytes of the stream accounted for: shifted out, valid, and
    /// still with the reader. Tokenizing never changes it.
    pub open spec fn total_len(&self) -> int {
        (self.removed().len() + self.data().len() + self.pending().len()) as int
    }

    /// The position of the tokenizer in the stream.
    pub open spec fn spec_current_index(&self) -> int {
        self.pos() + self.removed().len()
    }

    /// The tokenizer's position never passes the bytes accounted for.
    pub proof fn lemma_index_bound(&self)
        requires
            self.wf(),
        ensures
            self.spec_current_index() <= self.total_len(),
    {
    }

    /// The internal invariant.
    pub closed spec fn wf(&self) -> bool {
        &&& self.buffer.wf()
        &&& self.pos <= self.buffer.data().len()
        &&& self.buffer.capacity() > 0
    }

    /// A tokenizer over `reader`, using `buf` as its working buffer.
    pub fn new(reader: &'rj mut R, buf: &'rj mut [u8]) -> (r: Self)
        requires
            old(reader).stream().len() < usize::MAX,
            old(buf)@.len() > 0,
        ensures
            r.wf(),
            r.data() == Seq::<u8>::empty(),
            r.pos() == 0,
            r.removed() == Seq::<u8>::empty(),
            r.pending() == old(reader).stream(),
            r.capacity() == old(buf)@.len(),
            r.reader_never_fails() == old(reader).never_fails(),
    {
        let buffer = Buffer::new(reader, buf);
        RJiter { buffer, pos: 0 }
    }

    /// The position of the tokenizer in the stream: its position in the buffer
    /// plus the number of bytes shifted out.
    pub fn current_index(&self) -> (r: usize)
        requires
            self.wf(),
        ensures
            r == self.spec_current_index(),
    {
        proof {
            self.buffer.lemma_bounds();
        }
        self.pos + self.buffer.n_shifted_out()
    }

    /// The stream index of a tokenizer at `p`, saturating at `usize::MAX`.
    fn index_at(&self, p: usize) -> (r: usize)
        requires
            self.buffer.wf(),
        ensures
            r == clamp(p + self.removed().len(), usize::MAX as int),
    {
        p.saturating_add(self.buffer.n_shifted_out())
    }

    /// The line (from 1) and column of the stream index `index`: the position within
    /// the buffer, plus the lines and columns of the bytes shifted out.
    pub fn error_position(&self, index: usize) -> (r: LinePosition)
        requires
            self.wf(),
            index >= self.removed().len(),
        ensures
            r.line == spec_find_position(self.data(), index - self.removed().len()).0
                + crate::buffer::line_col(self.removed()).0,
            r.column == spec_find_position(self.data(), index - self.removed().len()).1
                + crate::buffer::line_col(self.removed()).1,
    {
        let local = index - self.buffer.n_shifted_out();
        let data = self.buffer.valid_bytes();
        let pos = call_find_position(data, local);
        let shifted = self.buffer.pos_shifted();
        proof {
            let s = if 0 <= local < data@.len() {
                data@.subrange(0, local + 1)
            } else {
                data@
            };
            crate::buffer::lemma_line_col_bound(s);
            crate::buffer::lemma_line_col_bound(self.removed());
            self.buffer.lemma_bounds();
        }
        LinePosition::new(pos.line + shifted.line, pos.column + shifted.column)
    }

    /// Applies `op` at the tokenizer's position and moves the position to where the
    /// tokenizer stopped (at most the end of the valid bytes).
    fn run_here(&mut self, op: Op) -> (r: (Result<Outcome, TokenError>, Ghost<int>))
        requires
            old(self).wf(),
        ensures
            final(self).reader_never_fails() == old(self).reader_never_fails(),
            final(self).wf(),
            final(self).buffer == old(self).buffer,
            exists|idx: usize|
                #![trigger op_result(op, old(self).data().subrange(old(self).pos(), old(self).data().len() as int), r.0, idx)]
                op_result(
                    op,
                    old(self).data().subrange(old(self).pos(), old(self).data().len() as int),
                    r.0,
                    idx,
                ) && final(self).pos() == clamp(old(self).pos() + idx, old(self).data().len() as int),
            r.1@ == old(self).pos(),
            final(self).pos() >= old(self).pos(),
            r.0 is Ok && !(op is Peek) && !(peek_only_ok(op) && old(self).pos() == old(self).data().len())
                ==> final(self).pos() > old(self).pos(),
    {
        let n = self.buffer.n_bytes();
        let p = self.pos;
        let data = self.buffer.valid_bytes();
        let window = &data[p..n];
        assert(window@ == old(self).data().subrange(p as int, n as int));
        let (res, idx) = run_op(op, window);
        assert(op_result(op, old(self).data().subrange(old(self).pos(), old(self).data().len() as int), res, idx));
        self.pos = if idx <= n - p {
            p + idx
        } else {
            n
        };
        assert(self.pos() == clamp(old(self).pos() + idx, old(self).data().len() as int));
        let r = (res, Ghost(p as int));
        assert(op_result(op, old(self).data().subrange(old(self).pos(), old(self).data().len() as int), r.0, idx));
        r
    }

    /// Drops the bytes before the tokenizer's position `jiter_pos` and the whitespace
    /// after it; if `transparent_token` is then the next byte, also the whitespace after
    /// that token (unless the buffer has no room after it). The tokenizer then restarts
    /// at the start of the buffer, where the value now begins.
    #[verifier::rlimit(40)]
    fn skip_spaces_feeding(&mut self, jiter_pos: usize, transparent_token: Option<u8>) -> (r: Result<
        (),
        Error,
    >)
        requires
            old(self).wf(),
            jiter_pos <= old(self).data().len(),
        ensures
            final(self).reader_never_fails() == old(self).reader_never_fails(),
            old(self).reader_never_fails() ==> !(r matches Err(e) && e.error_type is IoError),
            final(self).wf(),
            final(self).capacity() == old(self).capacity(),
            final(self).total_len() == old(self).total_len(),
            final(self).removed().len() >= old(self).removed().len() + jiter_pos,
            r matches Err(e) ==> e.error_type == ErrorType::IoError(IoError),
            r is Ok ==> final(self).pos() == 0 && ws_skipped(
                old(self).data().subrange(jiter_pos as int, old(self).data().len() as int) + old(
                    self,
                ).pending(),
                final(self).data() + final(self).pending(),
                transparent_token,
            ),
    {
        let ghost rem0 = self.data().subrange(jiter_pos as int, self.data().len() as int) + self.pending();
        let change_flag = ChangeFlag::new(&self.buffer);
        let to_pos: usize = 0;
        if jiter_pos > to_pos {
            let ghost d = self.data();
            self.buffer.shift_buffer(to_pos, jiter_pos);
            assert(d.subrange(0, 0) + d.subrange(jiter_pos as int, d.len() as int) =~= d.subrange(
                jiter_pos as int,
                d.len() as int,
            ));
        } else {
            assert(self.data().subrange(0, self.data().len() as int) =~= self.data());
        }
        assert(self.data() + self.pending() == rem0);
        let ghost r1 = self.buffer.removed();
        if self.buffer.skip_spaces(to_pos).is_err() {
            let index = self.index_at(self.pos);
            self.sync(&change_flag);
            return Err(Error { error_type: ErrorType::IoError(IoError), index });
        }
        let ghost dropped1 = self.buffer.removed().subrange(r1.len() as int, self.buffer.removed().len() as int);
        let ghost a: int = dropped1.len() as int;
        proof {
            assert(rem0.subrange(0, 0) + dropped1 + self.data().subrange(0, self.data().len() as int)
                + self.pending() == rem0);
            assert(self.data().subrange(0, self.data().len() as int) =~= self.data());
            assert(rem0 =~= dropped1 + (self.data() + self.pending()));
            assert(rem0.subrange(0, a) =~= dropped1);
            assert(rem0.subrange(a, rem0.len() as int) =~= self.data() + self.pending());
            assert forall|k: int| 0 <= k < dropped1.len() implies spec_is_ascii_whitespace(
                #[trigger] dropped1[k],
            ) by {
                assert(dropped1[k] == self.buffer.removed()[r1.len() + k]);
            }
            assert(ws_cut(rem0, self.data() + self.pending(), transparent_token, a, a));
        }
        if let Some(token) = transparent_token {
            if to_pos >= self.buffer.n_bytes() {
                if self.buffer.read_more().is_err() {
                    let index = self.index_at(self.pos);
                    self.sync(&change_flag);
                    return Err(Error { error_type: ErrorType::IoError(IoError), index });
                }
            }
            assert(rem0.subrange(a, rem0.len() as int) == self.data() + self.pending());
            if to_pos < self.buffer.n_bytes() && self.buffer.byte_at(to_pos) == token && to_pos + 1
                < self.buffer.capacity_len() {
                let ghost s1 = self.data() + self.pending();
                let ghost r2 = self.buffer.removed();
                if self.buffer.skip_spaces(to_pos + 1).is_err() {
                    let index = self.index_at(self.pos);
                    self.sync(&change_flag);
                    return Err(Error { error_type: ErrorType::IoError(IoError), index });
                }
                proof {
                    let dropped2 = self.buffer.removed().subrange(r2.len() as int, self.buffer.removed().len() as int);
                    let bb = a + 1 + dropped2.len();
                    assert(s1[0] == token);
                    assert(s1.subrange(0, 1) + dropped2 + self.data().subrange(1, self.data().len() as int)
                        + self.pending() == s1);
                    assert(self.data().subrange(0, 1) == s1.subrange(0, 1));
                    assert(self.data()[0] == token) by {
                        assert(self.data().subrange(0, 1)[0] == self.data()[0]);
                    }
                    assert(rem0[a] == token) by {
                        assert(rem0.subrange(a, rem0.len() as int)[0] == rem0[a]);
                    }
                    assert(rem0.subrange(a + 1, bb) =~= dropped2) by {
                        assert forall|k: int| 0 <= k < dropped2.len() implies rem0.subrange(a + 1, bb)[k] == dropped2[k] by {
                            assert(rem0[a + 1 + k] == s1[1 + k]);
                            assert(s1[1 + k] == (s1.subrange(0, 1) + dropped2 + self.data().subrange(1, self.data().len() as int) + self.pending())[1 + k]);
                        }
                    }
                    assert forall|k: int| 0 <= k < dropped2.len() implies spec_is_ascii_whitespace(
                        #[trigger] dropped2[k],
                    ) by {
                        assert(dropped2[k] == self.buffer.removed()[r2.len() + k]);
                    }
                    assert(self.data() + self.pending() =~= seq![rem0[a]] + rem0.subrange(bb, rem0.len() as int)) by {
                        let t = self.data().subrange(1, self.data().len() as int) + self.pending();
                        assert(s1 =~= s1.subrange(0, 1) + dropped2 + t);
                        assert forall|k: int| 0 <= k < t.len() implies rem0.subrange(bb, rem0.len() as int)[k] == t[k] by {
                            assert(rem0[bb + k] == s1[1 + dropped2.len() + k]);
                            assert(s1[1 + dropped2.len() + k] == (s1.subrange(0, 1) + dropped2 + t)[1 + dropped2.len() + k]);
                        }
                        assert(self.data() =~= seq![self.data()[0]] + self.data().subrange(1, self.data().len() as int));
                    }
                    assert(all_ws(rem0.subrange(a + 1, bb)));
                    assert(ws_cut(rem0, self.data() + self.pending(), transparent_token, a, bb));
                }
            }
        }
        self.pos = 0;
        Ok(())
    }

    /// Restarts the tokenizer at the start of the buffer if the buffer's counters
    /// differ from `flag`.
    fn sync(&mut self, flag: &ChangeFlag)
        requires
            old(self).buffer.wf(),
            old(self).buffer.capacity() > 0,
            flag.records(&old(self).buffer) ==> old(self).pos <= old(self).buffer.data().len(),
        ensures
            final(self).reader_never_fails() == old(self).reader_never_fails(),
            final(self).wf(),
            final(self).buffer == old(self).buffer,
            !flag.records(&old(self).buffer) ==> final(self).pos == 0,
            flag.records(&old(self).buffer) ==> final(self).pos == old(self).pos,
    {
        if flag.is_changed(&self.buffer) {
            self.pos = 0;
        }
    }

    /// Reads more into the buffer. Returns whether bytes came; if they did, the
    /// tokenizer restarts at the start of the buffer.
    fn feed(&mut self) -> (r: Result<bool, Error>)
        requires
            old(self).wf(),
        ensures
            final(self).reader_never_fails() == old(self).reader_never_fails(),
            old(self).reader_never_fails() ==> !(r matches Err(e) && e.error_type is IoError),
            final(self).wf(),
            final(self).capacity() == old(self).capacity(),
            final(self).total_len() == old(self).total_len(),
            final(self).removed() == old(self).removed(),
            r matches Ok(true) ==> final(self).pending().len() < old(self).pending().len()
                && final(self).pos() == 0 && final(self).data() + final(self).pending() == old(
                self,
            ).data() + old(self).pending(),
            r matches Ok(false) ==> {
                &&& final(self).data() == old(self).data()
                &&& final(self).pos() == old(self).pos()
                &&& final(self).removed() == old(self).removed()
                &&& final(self).pending() == old(self).pending()
                &&& (final(self).pending().len() == 0 || final(self).data().len()
                    == final(self).capacity())
            },
            r matches Err(e) ==> {
                &&& e.error_type == ErrorType::IoError(IoError)
                &&& final(self).data() == old(self).data()
                &&& final(self).pos() == old(self).pos()
                &&& final(self).pending() == old(self).pending()
            },
    {
        match self.buffer.read_more() {
            Ok(n) => {
                if n == 0 {
                    assert(self.data() =~= old(self).data());
                    assert(self.pending() =~= old(self).pending());
                    Ok(false)
                } else {
                    self.pos = 0;
                    proof {
                        let p0 = old(self).pending();
                        assert(old(self).data() + p0 =~= old(self).data() + p0.subrange(0, n as int) + p0.skip(n as int));
                    }
                    Ok(true)
                }
            },
            Err(_) => {
                let index = self.current_index();
                Err(Error { error_type: ErrorType::IoError(IoError), index })
            },
        }
    }

    /// Applies `op` at the tokenizer's position; while it fails for want of input,
    /// drops the bytes before the value and the whitespace in front of it (and after
    /// `skip_spaces_token`, if that comes first), reads more and tries again.
    ///
    /// With `should_eager_consume`, a success that reaches the end of the valid bytes
    /// counts only when no more input comes, since the value may go on.
    fn loop_until_success(&mut self, op: Op, skip_spaces_token: Option<u8>, should_eager_consume: bool) -> (r: Result<Outcome, Error>)
        requires
            old(self).wf(),
        ensures
            final(self).reader_never_fails() == old(self).reader_never_fails(),
            old(self).reader_never_fails() ==> !(r matches Err(e) && e.error_type is IoError),
            final(self).wf(),
            final(self).capacity() == old(self).capacity(),
            final(self).total_len() == old(self).total_len(),
            r matches Ok(v) ==> token_step(op, final(self).data(), final(self).pos(), Ok(v)) && kind_ok(op, v),
            r matches Ok(v) ==> stream_step(
                op,
                skip_spaces_token,
                old(self).remaining(),
                final(self).data(),
                final(self).pending(),
                final(self).pos(),
                Ok(v),
            ),
            final(self).spec_current_index() >= old(self).spec_current_index(),
            r is Ok && !(op is Peek) && !peek_only_ok(op) ==> final(self).spec_current_index() > old(
                self,
            ).spec_current_index(),
            ok_here(op, should_eager_consume, old(self).data(), old(self).pos()) ==> {
                &&& r matches Ok(v) && took_here(op, old(self).data(), old(self).pos(), final(self).pos(), Ok(v))
                &&& final(self).data() == old(self).data()
                &&& final(self).removed() == old(self).removed()
                &&& final(self).pending() == old(self).pending()
            },
            r is Ok && should_eager_consume ==> final(self).pos() < final(self).data().len()
                || final(self).pending().len() == 0 || final(self).data().len() == final(self).capacity(),
            r matches Err(e) && retryable_type(e.error_type) ==> final(self).pending().len() == 0
                || final(self).data().len() == final(self).capacity(),
            r matches Err(e) ==> error_step(op, final(self).data(), e),
    {
        let jiter_pos = self.pos;
        let (result, Ghost(p0)) = self.run_here(op);
        let ghost d0 = self.data();
        match result {
            Ok(v) => {
                if !should_eager_consume || self.pos < self.buffer.n_bytes() {
                    proof {
                        let idx = choose|idx: usize| op_result(op, d0.subrange(p0, d0.len() as int), Ok(v), idx) && self.pos() == clamp(p0 + idx, d0.len() as int);
                        lemma_op_result_kind(op, d0.subrange(p0, d0.len() as int), v, idx);
                        assert(took_here(op, d0, p0, self.pos(), Ok(v)));
                        lemma_ws_skipped_none(old(self).remaining(), skip_spaces_token);
                        lemma_stream_step(op, skip_spaces_token, old(self).remaining(), d0, self.pending(), p0, self.pos(), Ok(v));
                    }
                    return Ok(v);
                }
            },
            Err(_) => {},
        }
        proof {
            let w = d0.subrange(p0, d0.len() as int);
            let idx0 = choose|idx: usize| op_result(op, w, result, idx) && self.pos() == clamp(p0 + idx, d0.len() as int);
            assert forall|v: Outcome, idx: usize| #[trigger] op_result(op, w, Ok(v), idx) implies !(
            !should_eager_consume || p0 + idx < d0.len()) by {
                lemma_op_result_unique(op, w, Ok(v), idx, result, idx0);
            }
            assert(!ok_here(op, should_eager_consume, old(self).data(), old(self).pos()));
        }
        match self.skip_spaces_feeding(jiter_pos, skip_spaces_token) {
            Ok(()) => {},
            Err(e) => {
                return Err(e);
            },
        }
        let ghost cap0 = self.capacity();
        loop
            invariant
                self.reader_never_fails() == old(self).reader_never_fails(),
                self.wf(),
                self.capacity() == cap0,
                cap0 == old(self).capacity(),
                self.total_len() == old(self).total_len(),
                self.removed().len() >= old(self).removed().len() + jiter_pos,
                jiter_pos == old(self).pos(),
                !ok_here(op, should_eager_consume, old(self).data(), old(self).pos()),
                self.pos() == 0,
                ws_skipped(old(self).remaining(), self.data() + self.pending(), skip_spaces_token),
            decreases self.pending().len(),
        {
            let start = self.pos;
            let (result, Ghost(p1)) = self.run_here(op);
            let ghost d1 = self.data();
            let ghost pos1 = self.pos();
            match result {
                Ok(v) => {
                    proof {
                        let idx = choose|idx: usize| op_result(op, d1.subrange(p1, d1.len() as int), Ok(v), idx) && pos1 == clamp(p1 + idx, d1.len() as int);
                        lemma_op_result_kind(op, d1.subrange(p1, d1.len() as int), v, idx);
                        assert(took_here(op, d1, 0, pos1, Ok(v)));
                        assert(d1.subrange(0, d1.len() as int) =~= d1);
                        lemma_stream_step(op, skip_spaces_token, old(self).remaining(), d1, self.pending(), 0, pos1, Ok(v));
                    }
                    if !should_eager_consume || self.pos < self.buffer.n_bytes() {
                        return Ok(v);
                    }
                    match self.feed() {
                        Ok(true) => {},
                        Ok(false) => {
                            return Ok(v);
                        },
                        Err(e) => {
                            return Err(e);
                        },
                    }
                },
                Err(e) => {
                    let ghost je = e;
                    if !can_retry_if_partial(&e) {
                        let ci = self.current_index();
                        let err = Error::from_jiter_error(ci, rebase(e, start));
                        proof {
                            let idx = choose|idx: usize| op_result(op, d1.subrange(p1, d1.len() as int), Err(je), idx) && pos1 == clamp(p1 + idx, d1.len() as int);
                            assert(op_result(op, self.data().subrange(p1, self.data().len() as int), Err(je), idx));
                        }
                        return Err(err);
                    }
                    match self.feed() {
                        Ok(true) => {},
                        Ok(false) => {
                            let ci = self.current_index();
                            let err = Error::from_jiter_error(ci, rebase(e, start));
                            proof {
                                let idx = choose|idx: usize| op_result(op, d1.subrange(p1, d1.len() as int), Err(je), idx) && pos1 == clamp(p1 + idx, d1.len() as int);
                                assert(op_result(op, self.data().subrange(p1, self.data().len() as int), Err(je), idx));
                            }
                            return Err(err);
                        },
                        Err(err) => {
                            return Err(err);
                        },
                    }
                },
            }
        }
    }

    /// Peeks at the next JSON value without consuming it.
    pub fn peek(&mut self) -> (r: Result<Peeked, Error>)
        requires
            old(self).wf(),
        ensures
            final(self).reader_never_fails() == old(self).reader_never_fails(),
            old(self).reader_never_fails() ==> !(r matches Err(e) && e.error_type is IoError),
            final(self).wf(),
            final(self).capacity() == old(self).capacity(),
            final(self).total_len() == old(self).total_len(),
            final(self).spec_current_index() >= old(self).spec_current_index(),
            r matches Ok(v) ==> token_step(Op::Peek, final(self).data(), final(self).pos(), Ok(Outcome::Peek(v))),
            r matches Err(e) ==> error_step(Op::Peek, final(self).data(), e),
            ok_here(Op::Peek, false, old(self).data(), old(self).pos()) ==> (r matches Ok(v) && took_here(
                Op::Peek,
                old(self).data(),
                old(self).pos(),
                final(self).pos(),
                Ok(Outcome::Peek(v)),
            ) && final(self).data() == old(self).data() && final(self).removed() == old(self).removed()),
            r matches Ok(v) ==> stream_step(
                Op::Peek,
                None,
                old(self).remaining(),
                final(self).data(),
                final(self).pending(),
                final(self).pos(),
                Ok(Outcome::Peek(v)),
            ),
            r matches Err(e) && retryable_type(e.error_type) ==> final(self).pending().len() == 0
                || final(self).data().len() == final(self).capacity(),
    {
        match self.loop_until_success(Op::Peek, None, false) {
            Ok(Outcome::Peek(v)) => Ok(v),
            Ok(_) => {
                proof {
                    assert(false);
                }
                Err(Error { error_type: ErrorType::BufferFull, index: 0 })
            },
            Err(e) => Err(e),
        }
    }

    /// Knowing that the next value is an array, enters it and peeks at its first value; `None` for an empty array.
    pub fn known_array(&mut self) -> (r: Result<Option<Peeked>, Error>)
        requires
            old(self).wf(),
        ensures
            final(self).reader_never_fails() == old(self).reader_never_fails(),
            old(self).reader_never_fails() ==> !(r matches Err(e) && e.error_type is IoError),
            final(self).wf(),
            final(self).capacity() == old(self).capacity(),
            final(self).total_len() == old(self).total_len(),
            final(self).spec_current_index() >= old(self).spec_current_index(),
            r is Ok ==> final(self).spec_current_index() > old(self).spec_current_index(),
            r matches Ok(v) ==> token_step(Op::KnownArray, final(self).data(), final(self).pos(), Ok(Outcome::OptPeek(v))),
            r matches Err(e) ==> error_step(Op::KnownArray, final(self).data(), e),
            ok_here(Op::KnownArray, false, old(self).data(), old(self).pos()) ==> (r matches Ok(v) && took_here(
                Op::KnownArray,
                old(self).data(),
                old(self).pos(),
                final(self).pos(),
                Ok(Outcome::OptPeek(v)),
            ) && final(self).data() == old(self).data() && final(self).removed() == old(self).removed()),
            r matches Ok(v) ==> stream_step(
                Op::KnownArray,
                Some(91u8),
                old(self).remaining(),
                final(self).data(),
                final(self).pending(),
                final(self).pos(),
                Ok(Outcome::OptPeek(v)),
            ),
            r matches Err(e) && retryable_type(e.error_type) ==> final(self).pending().len() == 0
                || final(self).data().len() == final(self).capacity(),
    {
        match self.loop_until_success(Op::KnownArray, Some(91u8), false) {
            Ok(Outcome::OptPeek(v)) => Ok(v),
            Ok(_) => {
                proof {
                    assert(false);
                }
                Err(Error { error_type: ErrorType::BufferFull, index: 0 })
            },
            Err(e) => Err(e),
        }
    }

    /// Knowing from `peek` that the next value is `true` or `false`, consumes it.
    pub fn known_bool(&mut self, peek: Peeked) -> (r: Result<bool, Error>)
        requires
            old(self).wf(),
        ensures
            final(self).reader_never_fails() == old(self).reader_never_fails(),
            old(self).reader_never_fails() ==> !(r matches Err(e) && e.error_type is IoError),
            final(self).wf(),
            final(self).capacity() == old(self).capacity(),
            final(self).total_len() == old(self).total_len(),
            final(self).spec_current_index() >= old(self).spec_current_index(),
            r is Ok ==> final(self).spec_current_index() > old(self).spec_current_index(),
            r matches Ok(v) ==> token_step(Op::KnownBool(peek), final(self).data(), final(self).pos(), Ok(Outcome::Bool(v))),
            r matches Err(e) ==> error_step(Op::KnownBool(peek), final(self).data(), e),
            ok_here(Op::KnownBool(peek), false, old(self).data(), old(self).pos()) ==> (r matches Ok(v) && took_here(
                Op::KnownBool(peek),
                old(self).data(),
                old(self).pos(),
                final(self).pos(),
                Ok(Outcome::Bool(v)),
            ) && final(self).data() == old(self).data() && final(self).removed() == old(self).removed()),
            r matches Ok(v) ==> stream_step(
                Op::KnownBool(peek),
                None,
                old(self).remaining(),
                final(self).data(),
                final(self).pending(),
                final(self).pos(),
                Ok(Outcome::Bool(v)),
            ),
            r matches Err(e) && retryable_type(e.error_type) ==> final(self).pending().len() == 0
                || final(self).data().len() == final(self).capacity(),
    {
        match self.loop_until_success(Op::KnownBool(peek), None, false) {
            Ok(Outcome::Bool(v)) => Ok(v),
            Ok(_) => {
                proof {
                    assert(false);
                }
                Err(Error { error_type: ErrorType::BufferFull, index: 0 })
            },
            Err(e) => Err(e),
        }
    }

    /// Knowing that the next value is a number, peeked as `peek`, consumes it and
    /// returns it as an integer. The tokenizer takes the number's first byte from
    /// `peek`: when no input is left, a one-digit number succeeds without moving it.
    pub fn known_int(&mut self, peek: Peeked) -> (r: Result<NumberInt, Error>)
        requires
            old(self).wf(),
        ensures
            final(self).reader_never_fails() == old(self).reader_never_fails(),
            old(self).reader_never_fails() ==> !(r matches Err(e) && e.error_type is IoError),
            final(self).wf(),
            final(self).capacity() == old(self).capacity(),
            final(self).total_len() == old(self).total_len(),
            final(self).spec_current_index() >= old(self).spec_current_index(),
            r matches Ok(v) ==> token_step(Op::KnownInt(peek), final(self).data(), final(self).pos(), Ok(Outcome::Int(v))),
            r matches Err(e) ==> error_step(Op::KnownInt(peek), final(self).data(), e),
            ok_here(Op::KnownInt(peek), true, old(self).data(), old(self).pos()) ==> (r matches Ok(v) && took_here(
                Op::KnownInt(peek),
                old(self).data(),
                old(self).pos(),
                final(self).pos(),
                Ok(Outcome::Int(v)),
            ) && final(self).data() == old(self).data() && final(self).removed() == old(self).removed()),
            r matches Ok(v) ==> stream_step(
                Op::KnownInt(peek),
                None,
                old(self).remaining(),
                final(self).data(),
                final(self).pending(),
                final(self).pos(),
                Ok(Outcome::Int(v)),
            ),
            r matches Err(e) && retryable_type(e.error_type) ==> final(self).pending().len() == 0
                || final(self).data().len() == final(self).capacity(),
    {
        match self.loop_until_success(Op::KnownInt(peek), None, true) {
            Ok(Outcome::Int(v)) => Ok(v),
            Ok(_) => {
                proof {
                    assert(false);
                }
                Err(Error { error_type: ErrorType::BufferFull, index: 0 })
            },
            Err(e) => Err(e),
        }
    }

    /// Consumes the next value, which must be an integer, and returns it.
    pub fn next_int(&mut self) -> (r: Result<NumberInt, Error>)
        requires
            old(self).wf(),
        ensures
            final(self).reader_never_fails() == old(self).reader_never_fails(),
            old(self).reader_never_fails() ==> !(r matches Err(e) && e.error_type is IoError),
            final(self).wf(),
            final(self).capacity() == old(self).capacity(),
            final(self).total_len() == old(self).total_len(),
            final(self).spec_current_index() >= old(self).spec_current_index(),
            r is Ok ==> final(self).spec_current_index() > old(self).spec_current_index(),
            r matches Ok(v) ==> token_step(Op::NextInt, final(self).data(), final(self).pos(), Ok(Outcome::Int(v))),
            r matches Err(e) ==> error_step(Op::NextInt, final(self).data(), e),
            ok_here(Op::NextInt, true, old(self).data(), old(self).pos()) ==> (r matches Ok(v) && took_here(
                Op::NextInt,
                old(self).data(),
                old(self).pos(),
                final(self).pos(),
                Ok(Outcome::Int(v)),
            ) && final(self).data() == old(self).data() && final(self).removed() == old(self).removed()),
            r matches Ok(v) ==> stream_step(
                Op::NextInt,
                None,
                old(self).remaining(),
                final(self).data(),
                final(self).pending(),
                final(self).pos(),
                Ok(Outcome::Int(v)),
            ),
            r matches Err(e) && retryable_type(e.error_type) ==> final(self).pending().len() == 0
                || final(self).data().len() == final(self).capacity(),
    {
        match self.loop_until_success(Op::NextInt, None, true) {
            Ok(Outcome::Int(v)) => Ok(v),
            Ok(_) => {
                proof {
                    assert(false);
                }
                Err(Error { error_type: ErrorType::BufferFull, index: 0 })
            },
            Err(e) => Err(e),
        }
    }

    /// Knowing that the next value is a string, consumes it and returns its raw bytes.
    pub fn known_bytes(&mut self) -> (r: Result<Vec<u8>, Error>)
        requires
            old(self).wf(),
        ensures
            final(self).reader_never_fails() == old(self).reader_never_fails(),
            old(self).reader_never_fails() ==> !(r matches Err(e) && e.error_type is IoError),
            final(self).wf(),
            final(self).capacity() == old(self).capacity(),
            final(self).total_len() == old(self).total_len(),
            final(self).spec_current_index() >= old(self).spec_current_index(),
            r is Ok ==> final(self).spec_current_index() > old(self).spec_current_index(),
            r matches Ok(v) ==> token_step(Op::KnownBytes, final(self).data(), final(self).pos(), Ok(Outcome::Bytes(v))),
            r matches Err(e) ==> error_step(Op::KnownBytes, final(self).data(), e),
            ok_here(Op::KnownBytes, false, old(self).data(), old(self).pos()) ==> (r matches Ok(v) && took_here(
                Op::KnownBytes,
                old(self).data(),
                old(self).pos(),
                final(self).pos(),
                Ok(Outcome::Bytes(v)),
            ) && final(self).data() == old(self).data() && final(self).removed() == old(self).removed()),
            r matches Ok(v) ==> stream_step(
                Op::KnownBytes,
                None,
                old(self).remaining(),
                final(self).data(),
                final(self).pending(),
                final(self).pos(),
                Ok(Outcome::Bytes(v)),
            ),
            r matches Err(e) && retryable_type(e.error_type) ==> final(self).pending().len() == 0
                || final(self).data().len() == final(self).capacity(),
    {
        match self.loop_until_success(Op::KnownBytes, None, false) {
            Ok(Outcome::Bytes(v)) => Ok(v),
            Ok(_) => {
                proof {
                    assert(false);
                }
                Err(Error { error_type: ErrorType::BufferFull, index: 0 })
            },
            Err(e) => Err(e),
        }
    }

    /// Knowing that the next value is `null`, consumes it.
    pub fn known_null(&mut self) -> (r: Result<(), Error>)
        requires
            old(self).wf(),
        ensures
            final(self).reader_never_fails() == old(self).reader_never_fails(),
            old(self).reader_never_fails() ==> !(r matches Err(e) && e.error_type is IoError),
            final(self).wf(),
            final(self).capacity() == old(self).capacity(),
            final(self).total_len() == old(self).total_len(),
            final(self).spec_current_index() >= old(self).spec_current_index(),
            r is Ok ==> final(self).spec_current_index() > old(self).spec_current_index(),
            r is Ok ==> token_step(Op::KnownNull, final(self).data(), final(self).pos(), Ok(Outcome::Unit)),
            r matches Err(e) ==> error_step(Op::KnownNull, final(self).data(), e),
            ok_here(Op::KnownNull, false, old(self).data(), old(self).pos()) ==> (r is Ok && took_here(
                Op::KnownNull,
                old(self).data(),
                old(self).pos(),
                final(self).pos(),
                Ok(Outcome::Unit),
            ) && final(self).data() == old(self).data() && final(self).removed() == old(self).removed()),
            r is Ok ==> stream_step(
                Op::KnownNull,
                None,
                old(self).remaining(),
                final(self).data(),
                final(self).pending(),
                final(self).pos(),
                Ok(Outcome::Unit),
            ),
            r matches Err(e) && retryable_type(e.error_type) ==> final(self).pending().len() == 0
                || final(self).data().len() == final(self).capacity(),
    {
        match self.loop_until_success(Op::KnownNull, None, false) {
            Ok(Outcome::Unit) => Ok(()),
            Ok(_) => {
                proof {
                    assert(false);
                }
                Err(Error { error_type: ErrorType::BufferFull, index: 0 })
            },
            Err(e) => Err(e),
        }
    }

    /// Knowing that the next value is an object, enters it and consumes its first key; `None` for an empty object.
    pub fn known_object(&mut self) -> (r: Result<Option<String>, Error>)
        requires
            old(self).wf(),
        ensures
            final(self).reader_never_fails() == old(self).reader_never_fails(),
            old(self).reader_never_fails() ==> !(r matches Err(e) && e.error_type is IoError),
            final(self).wf(),
            final(self).capacity() == old(self).capacity(),
            final(self).total_len() == old(self).total_len(),
            final(self).spec_current_index() >= old(self).spec_current_index(),
            r is Ok ==> final(self).spec_current_index() > old(self).spec_current_index(),
            r matches Ok(v) ==> token_step(Op::KnownObject, final(self).data(), final(self).pos(), Ok(Outcome::OptText(v))),
            r matches Err(e) ==> error_step(Op::KnownObject, final(self).data(), e),
            ok_here(Op::KnownObject, false, old(self).data(), old(self).pos()) ==> (r matches Ok(v) && took_here(
                Op::KnownObject,
                old(self).data(),
                old(self).pos(),
                final(self).pos(),
                Ok(Outcome::OptText(v)),
            ) && final(self).data() == old(self).data() && final(self).removed() == old(self).removed()),
            r matches Ok(v) ==> stream_step(
                Op::KnownObject,
                Some(123u8),
                old(self).remaining(),
                final(self).data(),
                final(self).pending(),
                final(self).pos(),
                Ok(Outcome::OptText(v)),
            ),
            r matches Err(e) && retryable_type(e.error_type) ==> final(self).pending().len() == 0
                || final(self).data().len() == final(self).capacity(),
    {
        match self.loop_until_success(Op::KnownObject, Some(123u8), false) {
            Ok(Outcome::OptText(v)) => Ok(v),
            Ok(_) => {
                proof {
                    assert(false);
                }
                Err(Error { error_type: ErrorType::BufferFull, index: 0 })
            },
            Err(e) => Err(e),
        }
    }

    /// Knowing from `peek` what the next value starts with, consumes it without returning it.
    /// The tokenizer takes a number's first byte from `peek`: when no input is left, a
    /// one-digit number succeeds without moving it.
    /// A value that reaches the end of the valid bytes is read on as long as input comes.
    pub fn known_skip(&mut self, peek: Peeked) -> (r: Result<(), Error>)
        requires
            old(self).wf(),
        ensures
            final(self).reader_never_fails() == old(self).reader_never_fails(),
            old(self).reader_never_fails() ==> !(r matches Err(e) && e.error_type is IoError),
            final(self).wf(),
            final(self).capacity() == old(self).capacity(),
            final(self).total_len() == old(self).total_len(),
            final(self).spec_current_index() >= old(self).spec_current_index(),
            r is Ok ==> token_step(Op::KnownSkip(peek), final(self).data(), final(self).pos(), Ok(Outcome::Unit)),
            r is Ok ==> final(self).pos() < final(self).data().len() || final(self).pending().len() == 0
                || final(self).data().len() == final(self).capacity(),
            r matches Err(e) ==> error_step(Op::KnownSkip(peek), final(self).data(), e),
            ok_here(Op::KnownSkip(peek), true, old(self).data(), old(self).pos()) ==> (r is Ok && took_here(
                Op::KnownSkip(peek),
                old(self).data(),
                old(self).pos(),
                final(self).pos(),
                Ok(Outcome::Unit),
            ) && final(self).data() == old(self).data() && final(self).removed() == old(self).removed()),
            r is Ok ==> stream_step(
                Op::KnownSkip(peek),
                None,
                old(self).remaining(),
                final(self).data(),
                final(self).pending(),
                final(self).pos(),
                Ok(Outcome::Unit),
            ),
            r matches Err(e) && retryable_type(e.error_type) ==> final(self).pending().len() == 0
                || final(self).data().len() == final(self).capacity(),
    {
        match self.loop_until_success(Op::KnownSkip(peek), None, true) {
            Ok(Outcome::Unit) => Ok(()),
            Ok(_) => {
                proof {
                    assert(false);
                }
                Err(Error { error_type: ErrorType::BufferFull, index: 0 })
            },
            Err(e) => Err(e),
        }
    }

    /// Knowing that the next value is a string, consumes it and returns it decoded.
    pub fn known_str(&mut self) -> (r: Result<String, Error>)
        requires
            old(self).wf(),
        ensures
            final(self).reader_never_fails() == old(self).reader_never_fails(),
            old(self).reader_never_fails() ==> !(r matches Err(e) && e.error_type is IoError),
            final(self).wf(),
            final(self).capacity() == old(self).capacity(),
            final(self).total_len() == old(self).total_len(),
            final(self).spec_current_index() >= old(self).spec_current_index(),
            r is Ok ==> final(self).spec_current_index() > old(self).spec_current_index(),
            r matches Ok(v) ==> token_step(Op::KnownStr, final(self).data(), final(self).pos(), Ok(Outcome::Text(v))),
            r matches Err(e) ==> error_step(Op::KnownStr, final(self).data(), e),
            ok_here(Op::KnownStr, false, old(self).data(), old(self).pos()) ==> (r matches Ok(v) && took_here(
                Op::KnownStr,
                old(self).data(),
                old(self).pos(),
                final(self).pos(),
                Ok(Outcome::Text(v)),
            ) && final(self).data() == old(self).data() && final(self).removed() == old(self).removed()),
            r matches Ok(v) ==> stream_step(
                Op::KnownStr,
                None,
                old(self).remaining(),
                final(self).data(),
                final(self).pending(),
                final(self).pos(),
                Ok(Outcome::Text(v)),
            ),
            r matches Err(e) && retryable_type(e.error_type) ==> final(self).pending().len() == 0
                || final(self).data().len() == final(self).capacity(),
    {
        match self.loop_until_success(Op::KnownStr, None, false) {
            Ok(Outcome::Text(v)) => Ok(v),
            Ok(_) => {
                proof {
                    assert(false);
                }
                Err(Error { error_type: ErrorType::BufferFull, index: 0 })
            },
            Err(e) => Err(e),
        }
    }

    /// Enters the array that must come next and peeks at its first value; `None` for an empty array.
    pub fn next_array(&mut self) -> (r: Result<Option<Peeked>, Error>)
        requires
            old(self).wf(),
        ensures
            final(self).reader_never_fails() == old(self).reader_never_fails(),
            old(self).reader_never_fails() ==> !(r matches Err(e) && e.error_type is IoError),
            final(self).wf(),
            final(self).capacity() == old(self).capacity(),
            final(self).total_len() == old(self).total_len(),
            final(self).spec_current_index() >= old(self).spec_current_index(),
            r is Ok ==> final(self).spec_current_index() > old(self).spec_current_index(),
            r matches Ok(v) ==> token_step(Op::NextArray, final(self).data(), final(self).pos(), Ok(Outcome::OptPeek(v))),
            r matches Err(e) ==> error_step(Op::NextArray, final(self).data(), e),
            ok_here(Op::NextArray, false, old(self).data(), old(self).pos()) ==> (r matches Ok(v) && took_here(
                Op::NextArray,
                old(self).data(),
                old(self).pos(),
                final(self).pos(),
                Ok(Outcome::OptPeek(v)),
            ) && final(self).data() == old(self).data() && final(self).removed() == old(self).removed()),
            r matches Ok(v) ==> stream_step(
                Op::NextArray,
                Some(91u8),
                old(self).remaining(),
                final(self).data(),
                final(self).pending(),
                final(self).pos(),
                Ok(Outcome::OptPeek(v)),
            ),
            r matches Err(e) && retryable_type(e.error_type) ==> final(self).pending().len() == 0
                || final(self).data().len() == final(self).capacity(),
    {
        match self.loop_until_success(Op::NextArray, Some(91u8), false) {
            Ok(Outcome::OptPeek(v)) => Ok(v),
            Ok(_) => {
                proof {
                    assert(false);
                }
                Err(Error { error_type: ErrorType::BufferFull, index: 0 })
            },
            Err(e) => Err(e),
        }
    }

    /// Peeks at the next value of the current array; `None` at its end.
    pub fn array_step(&mut self) -> (r: Result<Option<Peeked>, Error>)
        requires
            old(self).wf(),
        ensures
            final(self).reader_never_fails() == old(self).reader_never_fails(),
            old(self).reader_never_fails() ==> !(r matches Err(e) && e.error_type is IoError),
            final(self).wf(),
            final(self).capacity() == old(self).capacity(),
            final(self).total_len() == old(self).total_len(),
            final(self).spec_current_index() >= old(self).spec_current_index(),
            r is Ok ==> final(self).spec_current_index() > old(self).spec_current_index(),
            r matches Ok(v) ==> token_step(Op::ArrayStep, final(self).data(), final(self).pos(), Ok(Outcome::OptPeek(v))),
            r matches Err(e) ==> error_step(Op::ArrayStep, final(self).data(), e),
            ok_here(Op::ArrayStep, false, old(self).data(), old(self).pos()) ==> (r matches Ok(v) && took_here(
                Op::ArrayStep,
                old(self).data(),
                old(self).pos(),
                final(self).pos(),
                Ok(Outcome::OptPeek(v)),
            ) && final(self).data() == old(self).data() && final(self).removed() == old(self).removed()),
            r matches Ok(v) ==> stream_step(
                Op::ArrayStep,
                Some(44u8),
                old(self).remaining(),
                final(self).data(),
                final(self).pending(),
                final(self).pos(),
                Ok(Outcome::OptPeek(v)),
            ),
            r matches Err(e) && retryable_type(e.error_type) ==> final(self).pending().len() == 0
                || final(self).data().len() == final(self).capacity(),
    {
        match self.loop_until_success(Op::ArrayStep, Some(44u8), false) {
            Ok(Outcome::OptPeek(v)) => Ok(v),
            Ok(_) => {
                proof {
                    assert(false);
                }
                Err(Error { error_type: ErrorType::BufferFull, index: 0 })
            },
            Err(e) => Err(e),
        }
    }

    /// Consumes the boolean that must come next.
    pub fn next_bool(&mut self) -> (r: Result<bool, Error>)
        requires
            old(self).wf(),
        ensures
            final(self).reader_never_fails() == old(self).reader_never_fails(),
            old(self).reader_never_fails() ==> !(r matches Err(e) && e.error_type is IoError),
            final(self).wf(),
            final(self).capacity() == old(self).capacity(),
            final(self).total_len() == old(self).total_len(),
            final(self).spec_current_index() >= old(self).spec_current_index(),
            r is Ok ==> final(self).spec_current_index() > old(self).spec_current_index(),
            r matches Ok(v) ==> token_step(Op::NextBool, final(self).data(), final(self).pos(), Ok(Outcome::Bool(v))),
            r matches Err(e) ==> error_step(Op::NextBool, final(self).data(), e),
            ok_here(Op::NextBool, false, old(self).data(), old(self).pos()) ==> (r matches Ok(v) && took_here(
                Op::NextBool,
                old(self).data(),
                old(self).pos(),
                final(self).pos(),
                Ok(Outcome::Bool(v)),
            ) && final(self).data() == old(self).data() && final(self).removed() == old(self).removed()),
            r matches Ok(v) ==> stream_step(
                Op::NextBool,
                None,
                old(self).remaining(),
                final(self).data(),
                final(self).pending(),
                final(self).pos(),
                Ok(Outcome::Bool(v)),
            ),
            r matches Err(e) && retryable_type(e.error_type) ==> final(self).pending().len() == 0
                || final(self).data().len() == final(self).capacity(),
    {
        match self.loop_until_success(Op::NextBool, None, false) {
            Ok(Outcome::Bool(v)) => Ok(v),
            Ok(_) => {
                proof {
                    assert(false);
                }
                Err(Error { error_type: ErrorType::BufferFull, index: 0 })
            },
            Err(e) => Err(e),
        }
    }

    /// Consumes the string that must come next and returns its raw bytes.
    pub fn next_bytes(&mut self) -> (r: Result<Vec<u8>, Error>)
        requires
            old(self).wf(),
        ensures
            final(self).reader_never_fails() == old(self).reader_never_fails(),
            old(self).reader_never_fails() ==> !(r matches Err(e) && e.error_type is IoError),
            final(self).wf(),
            final(self).capacity() == old(self).capacity(),
            final(self).total_len() == old(self).total_len(),
            final(self).spec_current_index() >= old(self).spec_current_index(),
            r is Ok ==> final(self).spec_current_index() > old(self).spec_current_index(),
            r matches Ok(v) ==> token_step(Op::NextBytes, final(self).data(), final(self).pos(), Ok(Outcome::Bytes(v))),
            r matches Err(e) ==> error_step(Op::NextBytes, final(self).data(), e),
            ok_here(Op::NextBytes, false, old(self).data(), old(self).pos()) ==> (r matches Ok(v) && took_here(
                Op::NextBytes,
                old(self).data(),
                old(self).pos(),
                final(self).pos(),
                Ok(Outcome::Bytes(v)),
            ) && final(self).data() == old(self).data() && final(self).removed() == old(self).removed()),
            r matches Ok(v) ==> stream_step(
                Op::NextBytes,
                None,
                old(self).remaining(),
                final(self).data(),
                final(self).pending(),
                final(self).pos(),
                Ok(Outcome::Bytes(v)),
            ),
            r matches Err(e) && retryable_type(e.error_type) ==> final(self).pending().len() == 0
                || final(self).data().len() == final(self).capacity(),
    {
        match self.loop_until_success(Op::NextBytes, None, false) {
            Ok(Outcome::Bytes(v)) => Ok(v),
            Ok(_) => {
                proof {
                    assert(false);
                }
                Err(Error { error_type: ErrorType::BufferFull, index: 0 })
            },
            Err(e) => Err(e),
        }
    }

    /// Consumes the next key of the current object, decoded; `None` at its end.
    pub fn next_key(&mut self) -> (r: Result<Option<String>, Error>)
        requires
            old(self).wf(),
        ensures
            final(self).reader_never_fails() == old(self).reader_never_fails(),
            old(self).reader_never_fails() ==> !(r matches Err(e) && e.error_type is IoError),
            final(self).wf(),
            final(self).capacity() == old(self).capacity(),
            final(self).total_len() == old(self).total_len(),
            final(self).spec_current_index() >= old(self).spec_current_index(),
            r is Ok ==> final(self).spec_current_index() > old(self).spec_current_index(),
            r matches Ok(v) ==> token_step(Op::NextKey, final(self).data(), final(self).pos(), Ok(Outcome::OptText(v))),
            r matches Err(e) ==> error_step(Op::NextKey, final(self).data(), e),
            ok_here(Op::NextKey, false, old(self).data(), old(self).pos()) ==> (r matches Ok(v) && took_here(
                Op::NextKey,
                old(self).data(),
                old(self).pos(),
                final(self).pos(),
                Ok(Outcome::OptText(v)),
            ) && final(self).data() == old(self).data() && final(self).removed() == old(self).removed()),
            r matches Ok(v) ==> stream_step(
                Op::NextKey,
                Some(44u8),
                old(self).remaining(),
                final(self).data(),
                final(self).pending(),
                final(self).pos(),
                Ok(Outcome::OptText(v)),
            ),
            r matches Err(e) && retryable_type(e.error_type) ==> final(self).pending().len() == 0
                || final(self).data().len() == final(self).capacity(),
    {
        match self.loop_until_success(Op::NextKey, Some(44u8), false) {
            Ok(Outcome::OptText(v)) => Ok(v),
            Ok(_) => {
                proof {
                    assert(false);
                }
                Err(Error { error_type: ErrorType::BufferFull, index: 0 })
            },
            Err(e) => Err(e),
        }
    }

    /// Consumes the next key of the current object as raw bytes; `None` at its end.
    pub fn next_key_bytes(&mut self) -> (r: Result<Option<Vec<u8>>, Error>)
        requires
            old(self).wf(),
        ensures
            final(self).reader_never_fails() == old(self).reader_never_fails(),
            old(self).reader_never_fails() ==> !(r matches Err(e) && e.error_type is IoError),
            final(self).wf(),
            final(self).capacity() == old(self).capacity(),
            final(self).total_len() == old(self).total_len(),
            final(self).spec_current_index() >= old(self).spec_current_index(),
            r is Ok ==> final(self).spec_current_index() > old(self).spec_current_index(),
            r matches Ok(v) ==> token_step(Op::NextKeyBytes, final(self).data(), final(self).pos(), Ok(Outcome::OptBytes(v))),
            r matches Err(e) ==> error_step(Op::NextKeyBytes, final(self).data(), e),
            ok_here(Op::NextKeyBytes, false, old(self).data(), old(self).pos()) ==> (r matches Ok(v) && took_here(
                Op::NextKeyBytes,
                old(self).data(),
                old(self).pos(),
                final(self).pos(),
                Ok(Outcome::OptBytes(v)),
            ) && final(self).data() == old(self).data() && final(self).removed() == old(self).removed()),
            r matches Ok(v) ==> stream_step(
                Op::NextKeyBytes,
                Some(44u8),
                old(self).remaining(),
                final(self).data(),
                final(self).pending(),
                final(self).pos(),
                Ok(Outcome::OptBytes(v)),
            ),
            r matches Err(e) && retryable_type(e.error_type) ==> final(self).pending().len() == 0
                || final(self).data().len() == final(self).capacity(),
    {
        match self.loop_until_success(Op::NextKeyBytes, Some(44u8), false) {
            Ok(Outcome::OptBytes(v)) => Ok(v),
            Ok(_) => {
                proof {
                    assert(false);
                }
                Err(Error { error_type: ErrorType::BufferFull, index: 0 })
            },
            Err(e) => Err(e),
        }
    }

    /// Consumes the `null` that must come next.
    pub fn next_null(&mut self) -> (r: Result<(), Error>)
        requires
            old(self).wf(),
        ensures
            final(self).reader_never_fails() == old(self).reader_never_fails(),
            old(self).reader_never_fails() ==> !(r matches Err(e) && e.error_type is IoError),
            final(self).wf(),
            final(self).capacity() == old(self).capacity(),
            final(self).total_len() == old(self).total_len(),
            final(self).spec_current_index() >= old(self).spec_current_index(),
            r is Ok ==> final(self).spec_current_index() > old(self).spec_current_index(),
            r is Ok ==> token_step(Op::NextNull, final(self).data(), final(self).pos(), Ok(Outcome::Unit)),
            r matches Err(e) ==> error_step(Op::NextNull, final(self).data(), e),
            ok_here(Op::NextNull, false, old(self).data(), old(self).pos()) ==> (r is Ok && took_here(
                Op::NextNull,
                old(self).data(),
                old(self).pos(),
                final(self).pos(),
                Ok(Outcome::Unit),
            ) && final(self).data() == old(self).data() && final(self).removed() == old(self).removed()),
            r is Ok ==> stream_step(
                Op::NextNull,
                None,
                old(self).remaining(),
                final(self).data(),
                final(self).pending(),
                final(self).pos(),
                Ok(Outcome::Unit),
            ),
            r matches Err(e) && retryable_type(e.error_type) ==> final(self).pending().len() == 0
                || final(self).data().len() == final(self).capacity(),
    {
        match self.loop_until_success(Op::NextNull, None, false) {
            Ok(Outcome::Unit) => Ok(()),
            Ok(_) => {
                proof {
                    assert(false);
                }
                Err(Error { error_type: ErrorType::BufferFull, index: 0 })
            },
            Err(e) => Err(e),
        }
    }

    /// Consumes the number that must come next and returns its bytes.
    /// A value that reaches the end of the valid bytes is read on as long as input comes.
    pub fn next_number_bytes(&mut self) -> (r: Result<Vec<u8>, Error>)
        requires
            old(self).wf(),
        ensures
            final(self).reader_never_fails() == old(self).reader_never_fails(),
            old(self).reader_never_fails() ==> !(r matches Err(e) && e.error_type is IoError),
            final(self).wf(),
            final(self).capacity() == old(self).capacity(),
            final(self).total_len() == old(self).total_len(),
            final(self).spec_current_index() >= old(self).spec_current_index(),
            r is Ok ==> final(self).spec_current_index() > old(self).spec_current_index(),
            r matches Ok(v) ==> token_step(Op::NextNumberBytes, final(self).data(), final(self).pos(), Ok(Outcome::Bytes(v))),
            r is Ok ==> final(self).pos() < final(self).data().len() || final(self).pending().len() == 0
                || final(self).data().len() == final(self).capacity(),
            r matches Err(e) ==> error_step(Op::NextNumberBytes, final(self).data(), e),
            ok_here(Op::NextNumberBytes, true, old(self).data(), old(self).pos()) ==> (r matches Ok(v) && took_here(
                Op::NextNumberBytes,
                old(self).data(),
                old(self).pos(),
                final(self).pos(),
                Ok(Outcome::Bytes(v)),
            ) && final(self).data() == old(self).data() && final(self).removed() == old(self).removed()),
            r matches Ok(v) ==> stream_step(
                Op::NextNumberBytes,
                None,
                old(self).remaining(),
                final(self).data(),
                final(self).pending(),
                final(self).pos(),
                Ok(Outcome::Bytes(v)),
            ),
            r matches Err(e) && retryable_type(e.error_type) ==> final(self).pending().len() == 0
                || final(self).data().len() == final(self).capacity(),
    {
        match self.loop_until_success(Op::NextNumberBytes, None, true) {
            Ok(Outcome::Bytes(v)) => Ok(v),
            Ok(_) => {
                proof {
                    assert(false);
                }
                Err(Error { error_type: ErrorType::BufferFull, index: 0 })
            },
            Err(e) => Err(e),
        }
    }

    /// Enters the object that must come next and consumes its first key, decoded; `None` for an empty object.
    pub fn next_object(&mut self) -> (r: Result<Option<String>, Error>)
        requires
            old(self).wf(),
        ensures
            final(self).reader_never_fails() == old(self).reader_never_fails(),
            old(self).reader_never_fails() ==> !(r matches Err(e) && e.error_type is IoError),
            final(self).wf(),
            final(self).capacity() == old(self).capacity(),
            final(self).total_len() == old(self).total_len(),
            final(self).spec_current_index() >= old(self).spec_current_index(),
            r is Ok ==> final(self).spec_current_index() > old(self).spec_current_index(),
            r matches Ok(v) ==> token_step(Op::NextObject, final(self).data(), final(self).pos(), Ok(Outcome::OptText(v))),
            r matches Err(e) ==> error_step(Op::NextObject, final(self).data(), e),
            ok_here(Op::NextObject, false, old(self).data(), old(self).pos()) ==> (r matches Ok(v) && took_here(
                Op::NextObject,
                old(self).data(),
                old(self).pos(),
                final(self).pos(),
                Ok(Outcome::OptText(v)),
            ) && final(self).data() == old(self).data() && final(self).removed() == old(self).removed()),
            r matches Ok(v) ==> stream_step(
                Op::NextObject,
                Some(123u8),
                old(self).remaining(),
                final(self).data(),
                final(self).pending(),
                final(self).pos(),
                Ok(Outcome::OptText(v)),
            ),
            r matches Err(e) && retryable_type(e.error_type) ==> final(self).pending().len() == 0
                || final(self).data().len() == final(self).capacity(),
    {
        match self.loop_until_success(Op::NextObject, Some(123u8), false) {
            Ok(Outcome::OptText(v)) => Ok(v),
            Ok(_) => {
                proof {
                    assert(false);
                }
                Err(Error { error_type: ErrorType::BufferFull, index: 0 })
            },
            Err(e) => Err(e),
        }
    }

    /// Enters the object that must come next and consumes its first key as raw bytes; `None` for an empty object.
    pub fn next_object_bytes(&mut self) -> (r: Result<Option<Vec<u8>>, Error>)
        requires
            old(self).wf(),
        ensures
            final(self).reader_never_fails() == old(self).reader_never_fails(),
            old(self).reader_never_fails() ==> !(r matches Err(e) && e.error_type is IoError),
            final(self).wf(),
            final(self).capacity() == old(self).capacity(),
            final(self).total_len() == old(self).total_len(),
            final(self).spec_current_index() >= old(self).spec_current_index(),
            r is Ok ==> final(self).spec_current_index() > old(self).spec_current_index(),
            r matches Ok(v) ==> token_step(Op::NextObjectBytes, final(self).data(), final(self).pos(), Ok(Outcome::OptBytes(v))),
            r matches Err(e) ==> error_step(Op::NextObjectBytes, final(self).data(), e),
            ok_here(Op::NextObjectBytes, false, old(self).data(), old(self).pos()) ==> (r matches Ok(v) && took_here(
                Op::NextObjectBytes,
                old(self).data(),
                old(self).pos(),
                final(self).pos(),
                Ok(Outcome::OptBytes(v)),
            ) && final(self).data() == old(self).data() && final(self).removed() == old(self).removed()),
            r matches Ok(v) ==> stream_step(
                Op::NextObjectBytes,
                Some(123u8),
                old(self).remaining(),
                final(self).data(),
                final(self).pending(),
                final(self).pos(),
                Ok(Outcome::OptBytes(v)),
            ),
            r matches Err(e) && retryable_type(e.error_type) ==> final(self).pending().len() == 0
                || final(self).data().len() == final(self).capacity(),
    {
        match self.loop_until_success(Op::NextObjectBytes, Some(123u8), false) {
            Ok(Outcome::OptBytes(v)) => Ok(v),
            Ok(_) => {
                proof {
                    assert(false);
                }
                Err(Error { error_type: ErrorType::BufferFull, index: 0 })
            },
            Err(e) => Err(e),
        }
    }

    /// Consumes the next value without returning it.
    /// A value that reaches the end of the valid bytes is read on as long as input comes.
    pub fn next_skip(&mut self) -> (r: Result<(), Error>)
        requires
            old(self).wf(),
        ensures
            final(self).reader_never_fails() == old(self).reader_never_fails(),
            old(self).reader_never_fails() ==> !(r matches Err(e) && e.error_type is IoError),
            final(self).wf(),
            final(self).capacity() == old(self).capacity(),
            final(self).total_len() == old(self).total_len(),
            final(self).spec_current_index() >= old(self).spec_current_index(),
            r is Ok ==> final(self).spec_current_index() > old(self).spec_current_index(),
            r is Ok ==> token_step(Op::NextSkip, final(self).data(), final(self).pos(), Ok(Outcome::Unit)),
            r is Ok ==> final(self).pos() < final(self).data().len() || final(self).pending().len() == 0
                || final(self).data().len() == final(self).capacity(),
            r matches Err(e) ==> error_step(Op::NextSkip, final(self).data(), e),
            ok_here(Op::NextSkip, true, old(self).data(), old(self).pos()) ==> (r is Ok && took_here(
                Op::NextSkip,
                old(self).data(),
                old(self).pos(),
                final(self).pos(),
                Ok(Outcome::Unit),
            ) && final(self).data() == old(self).data() && final(self).removed() == old(self).removed()),
            r is Ok ==> stream_step(
                Op::NextSkip,
                None,
                old(self).remaining(),
                final(self).data(),
                final(self).pending(),
                final(self).pos(),
                Ok(Outcome::Unit),
            ),
            r matches Err(e) && retryable_type(e.error_type) ==> final(self).pending().len() == 0
                || final(self).data().len() == final(self).capacity(),
    {
        match self.loop_until_success(Op::NextSkip, None, true) {
            Ok(Outcome::Unit) => Ok(()),
            Ok(_) => {
                proof {
                    assert(false);
                }
                Err(Error { error_type: ErrorType::BufferFull, index: 0 })
            },
            Err(e) => Err(e),
        }
    }

    /// Consumes the string that must come next and returns it decoded.
    pub fn next_str(&mut self) -> (r: Result<String, Error>)
        requires
            old(self).wf(),
        ensures
            final(self).reader_never_fails() == old(self).reader_never_fails(),
            old(self).reader_never_fails() ==> !(r matches Err(e) && e.error_type is IoError),
            final(self).wf(),
            final(self).capacity() == old(self).capacity(),
            final(self).total_len() == old(self).total_len(),
            final(self).spec_current_index() >= old(self).spec_current_index(),
            r is Ok ==> final(self).spec_current_index() > old(self).spec_current_index(),
            r matches Ok(v) ==> token_step(Op::NextStr, final(self).data(), final(self).pos(), Ok(Outcome::Text(v))),
            r matches Err(e) ==> error_step(Op::NextStr, final(self).data(), e),
            ok_here(Op::NextStr, false, old(self).data(), old(self).pos()) ==> (r matches Ok(v) && took_here(
                Op::NextStr,
                old(self).data(),
                old(self).pos(),
                final(self).pos(),
                Ok(Outcome::Text(v)),
            ) && final(self).data() == old(self).data() && final(self).removed() == old(self).removed()),
            r matches Ok(v) ==> stream_step(
                Op::NextStr,
                None,
                old(self).remaining(),
                final(self).data(),
                final(self).pending(),
                final(self).pos(),
                Ok(Outcome::Text(v)),
            ),
            r matches Err(e) && retryable_type(e.error_type) ==> final(self).pending().len() == 0
                || final(self).data().len() == final(self).capacity(),
    {
        match self.loop_until_success(Op::NextStr, None, false) {
            Ok(Outcome::Text(v)) => Ok(v),
            Ok(_) => {
                proof {
                    assert(false);
                }
                Err(Error { error_type: ErrorType::BufferFull, index: 0 })
            },
            Err(e) => Err(e),
        }
    }

    /// Checks that only whitespace is left in the stream, reading it to its end.
    /// An error of the tokenizer means that something other than whitespace is there.
    pub fn finish(&mut self) -> (r: Result<(), Error>)
        requires
            old(self).wf(),
        ensures
            final(self).reader_never_fails() == old(self).reader_never_fails(),
            old(self).reader_never_fails() ==> !(r matches Err(e) && e.error_type is IoError),
            final(self).wf(),
            final(self).capacity() == old(self).capacity(),
            final(self).total_len() == old(self).total_len(),
            final(self).spec_current_index() >= old(self).spec_current_index(),
            r is Ok ==> (final(self).pending().len() == 0 || final(self).data().len()
                == final(self).capacity()) && exists|start: int|
                #[trigger] finish_ok_at(final(self).data(), start),
            r matches Err(e) ==> e.error_type == ErrorType::IoError(IoError) || exists|start: int|
                #[trigger] finish_err_at(final(self).data(), start, e.error_type),
    {
        let ghost cap0 = self.capacity();
        loop
            invariant
                self.reader_never_fails() == old(self).reader_never_fails(),
                self.wf(),
                self.capacity() == cap0,
                cap0 == old(self).capacity(),
                self.total_len() == old(self).total_len(),
                self.spec_current_index() >= old(self).spec_current_index(),
            decreases self.pending().len(), self.data().len(),
        {
            let start = self.pos;
            let n = self.buffer.n_bytes();
            let (res, idx) = {
                let data = self.buffer.valid_bytes();
                call_finish(&data[start..n])
            };
            let ghost window = self.data().subrange(start as int, n as int);
            assert(jiter_finish(window) == (res, idx));
            self.pos = if idx <= n - start {
                start + idx
            } else {
                n
            };
            match res {
                Err(e) => {
                    let ghost je = e;
                    let ci = self.current_index();
                    let err = Error::from_jiter_error(ci, rebase(e, start));
                    assert(finish_err_at(self.data(), start as int, err.error_type));
                    return Err(err);
                },
                Ok(()) => {},
            }
            let ghost d1 = self.data();
            let ghost p1 = self.pending();
            if self.pos < self.buffer.capacity_len() {
                match self.buffer.read_more() {
                    Err(_) => {
                        let index = self.current_index();
                        return Err(Error { error_type: ErrorType::IoError(IoError), index });
                    },
                    Ok(k) => {
                        if k == 0 {
                            assert(self.data() =~= d1);
                            assert(finish_ok_at(self.data(), start as int));
                            return Ok(());
                        }
                    },
                }
            }
            let p = self.pos;
            self.buffer.shift_buffer(0, p);
            self.pos = 0;
        }
    }

    /// Skips `token` if the stream continues with it at the tokenizer's position;
    /// otherwise fails with `ExpectedSomeIdent` and consumes nothing. A token longer
    /// than the buffer is never found.
    pub fn known_skip_token(&mut self, token: &[u8]) -> (r: Result<(), Error>)
        requires
            old(self).wf(),
            old(self).capacity() + token@.len() <= usize::MAX,
        ensures
            final(self).reader_never_fails() == old(self).reader_never_fails(),
            old(self).reader_never_fails() ==> !(r matches Err(e) && e.error_type is IoError),
            final(self).wf(),
            final(self).capacity() == old(self).capacity(),
            final(self).total_len() == old(self).total_len(),
            r is Ok ==> final(self).spec_current_index() == old(self).spec_current_index() + token@.len(),
            r is Err ==> final(self).spec_current_index() == old(self).spec_current_index(),
            r is Ok ==> {
                &&& token@.len() <= old(self).remaining().len()
                &&& old(self).remaining().subrange(0, token@.len() as int) == token@
                &&& final(self).remaining() == old(self).remaining().skip(token@.len() as int)
            },
            r matches Err(e) ==> e.error_type == ErrorType::IoError(IoError) || {
                &&& e.error_type == ErrorType::JsonError(JsonErrorKind::ExpectedSomeIdent)
                &&& final(self).remaining() == old(self).remaining()
                &&& (token@.len() > old(self).capacity() || !(token@.len() <= old(
                    self,
                ).remaining().len() && old(self).remaining().subrange(0, token@.len() as int)
                    == token@))
            },
    {
        let ghost rem0 = self.remaining();
        let change_flag = ChangeFlag::new(&self.buffer);
        let mut pos = self.pos;
        let mut err_flag = false;
        let len = token.len();
        proof {
            self.buffer.lemma_bounds();
        }
        if pos + len >= self.buffer.n_bytes() {
            let ghost d = self.data();
            let ghost p0 = pos as int;
            self.buffer.shift_buffer(0, pos);
            self.pos = 0;
            pos = 0;
            proof {
                assert(self.data() =~= d.subrange(p0, d.len() as int)) by {
                    assert(d.subrange(0, 0) + d.subrange(p0, d.len() as int) =~= d.subrange(p0, d.len() as int));
                }
                assert(self.remaining() =~= rem0);
            }
        }
        proof {
            self.buffer.lemma_bounds();
        }
        loop
            invariant_except_break
                self.reader_never_fails() == old(self).reader_never_fails(),
                !err_flag,
            invariant
                self.reader_never_fails() == old(self).reader_never_fails(),
                self.wf(),
                self.capacity() == old(self).capacity(),
                pos == self.pos,
                len == token@.len(),
                self.capacity() + len <= usize::MAX,
                pos + len <= usize::MAX,
                self.total_len() == old(self).total_len(),
                self.spec_current_index() == old(self).spec_current_index(),
                self.remaining() == rem0,
                rem0 == old(self).remaining(),
                old(self).pos() + len >= old(self).data().len() ==> pos == 0,
                pos > 0 ==> self.data() == old(self).data() && self.removed() == old(self).removed(),
                pos > 0 ==> pos + len < old(self).data().len(),
                change_flag.records(&old(self).buffer),
            ensures
                !err_flag ==> self.data().len() >= pos + len,
                err_flag ==> self.pending().len() == 0 || self.data().len() == self.capacity(),
                err_flag ==> pos == 0 && self.data().len() < pos + len,
            decreases self.pending().len(),
        {
            if self.buffer.n_bytes() >= pos + len {
                break;
            }
            let ghost d = self.data();
            let ghost p = self.pending();
            match self.buffer.read_more() {
                Err(_) => {
                    let index = self.index_at(self.pos);
                    proof {
                        if pos > 0 {
                            assert(change_flag.records(&self.buffer));
                        }
                    }
                    self.sync(&change_flag);

                    return Err(Error { error_type: ErrorType::IoError(IoError), index });
                },
                Ok(k) => {
                    proof {
                        assert(self.data().subrange(pos as int, self.data().len() as int) + self.pending() =~= d.subrange(pos as int, d.len() as int) + p) by {
                            assert(p =~= p.subrange(0, k as int) + p.skip(k as int));
                            assert(self.data().subrange(pos as int, self.data().len() as int) =~= d.subrange(pos as int, d.len() as int) + p.subrange(0, k as int));
                        }
                    }
                    if k == 0 {
                        err_flag = true;
                        break;
                    }
                },
            }
        }
        let found = if err_flag {
            false
        } else {
            let n = self.buffer.n_bytes();
            let mut i: usize = 0;
            let mut same = true;
            while i < len
                invariant
                    self.reader_never_fails() == old(self).reader_never_fails(),
                    self.wf(),
                    pos + len <= n,
                    n == self.data().len(),
                    len == token@.len(),
                    0 <= i <= len,
                    same == (forall|q: int| 0 <= q < i ==> self.data()[pos + q] == token@[q]),
                decreases len - i,
            {
                if self.buffer.byte_at(pos + i) != token[i] {
                    same = false;
                }
                i = i + 1;
            }
            same
        };
        proof {
            if !err_flag {
                assert(rem0.subrange(0, len as int) =~= self.data().subrange(pos as int, pos + len));
                if !found {
                    let q = choose|q: int| 0 <= q < len && self.data()[pos + q] != token@[q];
                    assert(rem0.subrange(0, len as int)[q] != token@[q]);
                }
            } else {
                assert(pos == 0);
                if self.pending().len() == 0 {
                    assert(rem0.len() < len);
                }
            }
            if pos > 0 {
                assert(change_flag.records(&self.buffer));
            }
        }
        if found {
            let ghost d = self.data();
            self.buffer.shift_buffer(0, pos + len);
            proof {
                assert(self.data() =~= d.subrange(pos + len, d.len() as int));
            }
        }
        self.sync(&change_flag);
        if found {
            proof {
                assert(self.remaining() =~= rem0.skip(len as int));
            }
            return Ok(());
        }
        let index = self.current_index();
        Err(Error { error_type: ErrorType::JsonError(JsonErrorKind::ExpectedSomeIdent), index })
    }

    /// Index of the first backslash in the valid bytes, if any.
    fn find_backslash(&self) -> (r: Option<usize>)
        requires
            self.wf(),
        ensures
            r matches Some(b) ==> b < self.data().len() && self.data()[b as int] == 92u8 && forall|
                q: int,
            |
                0 <= q < b ==> self.data()[q] != 92u8,
            r is None ==> forall|q: int| 0 <= q < self.data().len() ==> self.data()[q] != 92u8,
    {
        let n = self.buffer.n_bytes();
        let mut i: usize = 0;
        while i < n
            invariant
                self.wf(),
                n == self.data().len(),
                i <= n,
                forall|q: int| 0 <= q < i ==> self.data()[q] != 92u8,
            decreases n - i,
        {
            if self.buffer.byte_at(i) == 92u8 {
                return Some(i);
            }
            i = i + 1;
        }
        None
    }

    /// Copies a string value to `writer` piece by piece, reading more between the
    /// pieces, so that a string longer than the buffer passes through. The tokenizer
    /// must be at the string's opening quote. The quotes are not written; with
    /// `decode`, escapes are decoded, otherwise the bytes are written as they are.
    #[verifier::rlimit(100)]
    fn handle_long<W: Writer>(&mut self, decode: bool, writer: &mut W) -> (r: Result<(), Error>)
        requires
            old(self).wf(),
        ensures
            final(self).reader_never_fails() == old(self).reader_never_fails(),
            old(self).reader_never_fails() && old(writer).never_fails() ==> !(r matches Err(e) && e.error_type is IoError),
            final(self).wf(),
            final(self).capacity() == old(self).capacity(),
            final(self).total_len() == old(self).total_len(),
            final(self).spec_current_index() >= old(self).spec_current_index(),
            r is Ok ==> final(self).spec_current_index() > old(self).spec_current_index(),
            r is Ok ==> exists|start: int, tail: Seq<u8>|
                #[trigger] long_tail(decode, final(self).data(), start, tail)
                    && final(writer).written().len() >= old(writer).written().len() + tail.len()
                    && final(writer).written().subrange(0, old(writer).written().len() as int)
                    == old(writer).written() && final(writer).written().subrange(
                    final(writer).written().len() - tail.len(),
                    final(writer).written().len() as int,
                ) == tail,
            r matches Err(e) ==> long_error(decode, e),
            match long_result(decode, old(self).data().subrange(old(self).pos(), old(self).data().len() as int)) {
                Ok(t) => (r is Ok && final(writer).written() == old(writer).written() + t) || (r matches Err(
                    e,
                ) && e.error_type == ErrorType::IoError(IoError)),
                Err(je) => !spec_can_retry_if_partial(je) ==> (r matches Err(e) && e.error_type
                    == error_type_of(je.error_type)),
            },
            old(writer).never_fails() && long_result(decode, old(self).data().subrange(old(self).pos(), old(self).data().len() as int)) is Ok
                ==> r is Ok && final(writer).written() == old(writer).written() + long_result(decode, old(self).data().subrange(old(self).pos(), old(self).data().len() as int))->Ok_0,
            final(writer).never_fails() == old(writer).never_fails(),
            r is Ok ==> exists|segs: Seq<(u8, Seq<u8>)>, start: int, tail: Seq<u8>|
                #[trigger] long_copy(
                    decode,
                    old(self).removed() + old(self).data().subrange(0, old(self).pos()),
                    final(self).removed(),
                    final(self).data(),
                    old(writer).written(),
                    final(writer).written(),
                    segs,
                    start,
                    tail,
                ),
    {
        let ghost w0 = writer.written();
        let ghost cap0 = self.capacity();
        let ghost win0 = self.data().subrange(self.pos(), self.data().len() as int);
        let ghost mut first = true;
        let ghost prefix = self.removed() + self.data().subrange(0, self.pos());
        let ghost mut segs: Seq<(u8, Seq<u8>)> = Seq::empty();
        loop
            invariant
                prefix == old(self).removed() + old(self).data().subrange(0, old(self).pos()),
                !first ==> self.removed() == prefix + segs_bytes(segs) && writer.written() == w0
                    + segs_out(decode, segs) && self.pos() == 0,
                first ==> segs.len() == 0,
                segs_ok(decode, segs),
                self.reader_never_fails() == old(self).reader_never_fails(),
                win0 == old(self).data().subrange(old(self).pos(), old(self).data().len() as int),
                writer.never_fails() == old(writer).never_fails(),
                first ==> self.data() == old(self).data() && self.pos() == old(self).pos()
                    && writer.written() == w0 && self.removed() == old(self).removed(),
                !first ==> long_result(decode, win0) is Err && spec_can_retry_if_partial(
                    long_result(decode, win0)->Err_0,
                ),
                self.wf(),
                self.capacity() == cap0,
                cap0 == old(self).capacity(),
                w0 == old(writer).written(),
                self.total_len() == old(self).total_len(),
                self.spec_current_index() >= old(self).spec_current_index(),
                writer.written().len() >= w0.len(),
                writer.written().subrange(0, w0.len() as int) == w0,
            decreases self.pending().len(),
        {
            let start = self.pos;
            let n = self.buffer.n_bytes();
            let ghost d1 = self.data();
            let ghost wr1 = writer.written();
            let err = if decode {
                let (res, idx) = {
                    let data = self.buffer.valid_bytes();
                    call_known_str(&data[start..n])
                };
                self.pos = if idx <= n - start {
                    start + idx
                } else {
                    n
                };
                match res {
                    Ok(text) => {
                        let ci = self.current_index();
                        let bytes = text.as_str().as_bytes();
                        match writer.write_all(bytes) {
                            Ok(()) => {
                                proof {
                                    assert(long_tail(decode, self.data(), start as int, bytes@));
                                    assert(writer.written() == wr1 + bytes@);
                                    assert(writer.written().subrange(0, w0.len() as int) =~= w0);
                                    assert(writer.written().subrange(writer.written().len() - bytes@.len(), writer.written().len() as int) =~= bytes@);
                                    assert(wr1 == w0 + segs_out(decode, segs));
                                    assert(long_copy(decode, prefix, self.removed(), self.data(), w0, writer.written(), segs, start as int, bytes@));
                                }
                                return Ok(());
                            },
                            Err(_) => {
                                return Err(Error { error_type: ErrorType::IoError(IoError), index: ci });
                            },
                        }
                    },
                    Err(e) => e,
                }
            } else {
                let (res, idx) = {
                    let data = self.buffer.valid_bytes();
                    call_known_bytes(&data[start..n])
                };
                self.pos = if idx <= n - start {
                    start + idx
                } else {
                    n
                };
                match res {
                    Ok(value) => {
                        let ci = self.current_index();
                        match writer.write_all(value.as_slice()) {
                            Ok(()) => {
                                proof {
                                    assert(long_tail(decode, self.data(), start as int, value@));
                                    assert(writer.written().subrange(0, w0.len() as int) =~= w0);
                                    assert(writer.written().subrange(writer.written().len() - value@.len(), writer.written().len() as int) =~= value@);
                                    assert(wr1 == w0 + segs_out(decode, segs));
                                    assert(long_copy(decode, prefix, self.removed(), self.data(), w0, writer.written(), segs, start as int, value@));
                                }
                                return Ok(());
                            },
                            Err(_) => {
                                return Err(Error { error_type: ErrorType::IoError(IoError), index: ci });
                            },
                        }
                    },
                    Err(e) => e,
                }
            };
            let ghost win = d1.subrange(start as int, n as int);
            assert(long_result(decode, win) == Err::<Seq<u8>, TokenError>(err));
            if !can_retry_if_partial(&err) {
                let ci = self.current_index();
                return Err(Error::from_jiter_error(ci, rebase(err, start)));
            }
            let ghost was_first = first;
            let ghost rem_before = self.removed();
            proof {
                first = false;
            }
            if start > 0 {
                let ghost dd = self.data();
                self.buffer.shift_buffer(0, start);
                proof {
                    assert(dd.subrange(0, 0) + dd.subrange(start as int, dd.len() as int) =~= dd.subrange(start as int, dd.len() as int));
                    assert(self.removed() == rem_before + dd.subrange(0, start as int));
                }
            } else {
                assert(d1.subrange(0, 0) =~= Seq::<u8>::empty());
                assert(rem_before + d1.subrange(0, 0) =~= rem_before);
            }
            self.pos = 0;
            proof {
                if was_first {
                    assert(d1 == old(self).data());
                    assert(start == old(self).pos());
                    assert(rem_before == old(self).removed());
                    assert(self.removed() == prefix);
                }
                if segs.len() == 0 {
                    assert(segs_bytes(segs) =~= Seq::<u8>::empty());
                    assert(segs_out(decode, segs) =~= Seq::<u8>::empty());
                    assert(self.removed() =~= prefix + segs_bytes(segs));
                    assert(writer.written() =~= w0 + segs_out(decode, segs));
                }
            }
            let n = self.buffer.n_bytes();
            let segment_end_pos: usize = match self.find_backslash() {
                None => {
                    if n == 0 {
                        0
                    } else {
                        n - 1
                    }
                },
                Some(bs_pos) => {
                    if bs_pos > 1 {
                        bs_pos
                    } else if n < 3 {
                        bs_pos
                    } else {
                        let after_bs = self.buffer.byte_at(2);
                        if after_bs != 117u8 && after_bs != 85u8 {
                            bs_pos + 2
                        } else if n < 7 {
                            bs_pos
                        } else {
                            bs_pos + 6
                        }
                    }
                },
            };
            // A decoded segment must not end inside a UTF-8 sequence: move its end back
            // to the start of the sequence that the end falls into.
            let mut segment_end_pos = segment_end_pos;
            if decode {
                while segment_end_pos > 1 && segment_end_pos < n && self.buffer.byte_at(
                    segment_end_pos,
                ) & 0xC0u8 == 0x80u8
                    invariant
                        self.reader_never_fails() == old(self).reader_never_fails(),
                        self.wf(),
                        n == self.data().len(),
                        segment_end_pos <= n,
                    decreases segment_end_pos,
                {
                    segment_end_pos = segment_end_pos - 1;
                }
            }
            if segment_end_pos > 1 {
                let ci = self.current_index();
                let ghost wr2 = writer.written();
                let ghost segs0 = segs;
                assert(self.removed() == prefix + segs_bytes(segs0));
                if decode {
                    let mut sub: Vec<u8> = Vec::new();
                    let mut k: usize = 0;
                    while k < segment_end_pos
                        invariant
                            self.reader_never_fails() == old(self).reader_never_fails(),
                            self.wf(),
                            segment_end_pos <= self.data().len(),
                            k <= segment_end_pos,
                            sub@ == self.data().subrange(0, k as int),
                        decreases segment_end_pos - k,
                    {
                        sub.push(self.buffer.byte_at(k));
                        k = k + 1;
                        assert(sub@ =~= self.data().subrange(0, k as int));
                    }
                    sub.push(34u8);
                    let ghost piece = (self.data()[0], self.data().subrange(1, segment_end_pos as int));
                    assert(sub@ =~= seq![piece.0] + piece.1 + seq![34u8]);
                    let (res, _idx) = call_known_str(sub.as_slice());
                    proof {
                        if res is Err {
                            assert(long_result(true, sub@) is Err);
                        }
                    }
                    match res {
                        Ok(text) => {
                            let tb = text.as_str().as_bytes();
                            proof {
                                assert(long_result(true, sub@) == Ok::<Seq<u8>, TokenError>(tb@));
                            }
                            match writer.write_all(tb) {
                                Ok(()) => {
                                    proof {
                                        assert(writer.written() == wr2 + seg_out(decode, piece));
                                        let ns = segs.push(piece);
                                        assert(ns.drop_last() =~= segs);
                                        assert forall|i: int| 0 <= i < ns.len() implies #[trigger] long_result(
                                            true,
                                            seq![ns[i].0] + ns[i].1 + seq![34u8],
                                        ) is Ok by {
                                            if i < segs.len() {
                                                assert(ns[i] == segs[i]);
                                            }
                                        }
                                        segs = ns;
                                    }
                                },
                                Err(_) => {
                                    return Err(Error { error_type: ErrorType::IoError(IoError), index: ci });
                                },
                            }
                        },
                        Err(e) => {
                            return Err(Error::from_jiter_error(ci, e));
                        },
                    }
                } else {
                    let data = self.buffer.valid_bytes();
                    let ghost piece = (self.data()[0], self.data().subrange(1, segment_end_pos as int));
                    match writer.write_all(&data[1..segment_end_pos]) {
                        Ok(()) => {
                            proof {
                                assert(writer.written() == wr2 + seg_out(decode, piece));
                                let ns = segs.push(piece);
                                assert(ns.drop_last() =~= segs);
                                segs = ns;
                            }
                        },
                        Err(_) => {
                            return Err(Error { error_type: ErrorType::IoError(IoError), index: ci });
                        },
                    }
                }
                proof {
                    assert(writer.written().subrange(0, w0.len() as int) =~= wr2.subrange(0, w0.len() as int));
                    assert(writer.written() =~= w0 + segs_out(decode, segs));
                }
                let ghost dd = self.data();
                let ghost rr = self.removed();
                self.buffer.shift_buffer(1, segment_end_pos);
                proof {
                    assert(segs.last().1 == dd.subrange(1, segment_end_pos as int));
                    assert(segs.drop_last() =~= segs0);
                    assert(segs_bytes(segs) == segs_bytes(segs0) + dd.subrange(1, segment_end_pos as int));
                    assert(self.removed() == rr + dd.subrange(1, segment_end_pos as int));
                    assert(self.removed() =~= prefix + segs_bytes(segs));
                }
            }
            match self.buffer.read_more() {
                Err(_) => {
                    let ci = self.current_index();
                    return Err(Error { error_type: ErrorType::IoError(IoError), index: ci });
                },
                Ok(k) => {
                    if k == 0 {
                        let ci = self.current_index();
                        assert(long_result(decode, win) is Err);
                        return Err(Error::from_jiter_error(ci, rebase(err, start)));
                    }
                    self.pos = 0;
                },
            }
        }
    }

    /// Copies the string at the tokenizer's position to `writer` as raw bytes,
    /// without its quotes, reading and writing piece by piece so that a string longer
    /// than the buffer passes through.
    pub fn write_long_bytes<W: Writer>(&mut self, writer: &mut W) -> (r: Result<(), Error>)
        requires
            old(self).wf(),
        ensures
            final(self).reader_never_fails() == old(self).reader_never_fails(),
            old(self).reader_never_fails() && old(writer).never_fails() ==> !(r matches Err(e) && e.error_type is IoError),
            final(self).wf(),
            final(self).capacity() == old(self).capacity(),
            final(self).total_len() == old(self).total_len(),
            final(self).spec_current_index() >= old(self).spec_current_index(),
            r is Ok ==> final(self).spec_current_index() > old(self).spec_current_index(),
            r is Ok ==> exists|start: int, tail: Seq<u8>|
                #[trigger] long_tail(false, final(self).data(), start, tail)
                    && final(writer).written().len() >= old(writer).written().len() + tail.len()
                    && final(writer).written().subrange(0, old(writer).written().len() as int)
                    == old(writer).written() && final(writer).written().subrange(
                    final(writer).written().len() - tail.len(),
                    final(writer).written().len() as int,
                ) == tail,
            r matches Err(e) ==> long_error(false, e),
            match long_result(false, old(self).data().subrange(old(self).pos(), old(self).data().len() as int)) {
                Ok(t) => (r is Ok && final(writer).written() == old(writer).written() + t) || (r matches Err(
                    e,
                ) && e.error_type == ErrorType::IoError(IoError)),
                Err(je) => !spec_can_retry_if_partial(je) ==> (r matches Err(e) && e.error_type
                    == error_type_of(je.error_type)),
            },
            old(writer).never_fails() && long_result(false, old(self).data().subrange(old(self).pos(), old(self).data().len() as int)) is Ok
                ==> r is Ok && final(writer).written() == old(writer).written() + long_result(false, old(self).data().subrange(old(self).pos(), old(self).data().len() as int))->Ok_0,
            final(writer).never_fails() == old(writer).never_fails(),
            r is Ok ==> exists|segs: Seq<(u8, Seq<u8>)>, start: int, tail: Seq<u8>|
                #[trigger] long_copy(
                    false,
                    old(self).removed() + old(self).data().subrange(0, old(self).pos()),
                    final(self).removed(),
                    final(self).data(),
                    old(writer).written(),
                    final(writer).written(),
                    segs,
                    start,
                    tail,
                ),
    {
        self.handle_long(false, writer)
    }

    /// Copies the string at the tokenizer's position to `writer` with its escapes
    /// decoded, without its quotes, reading and writing piece by piece so that a
    /// string longer than the buffer passes through.
    pub fn write_long_str<W: Writer>(&mut self, writer: &mut W) -> (r: Result<(), Error>)
        requires
            old(self).wf(),
        ensures
            final(self).reader_never_fails() == old(self).reader_never_fails(),
            old(self).reader_never_fails() && old(writer).never_fails() ==> !(r matches Err(e) && e.error_type is IoError),
            final(self).wf(),
            final(self).capacity() == old(self).capacity(),
            final(self).total_len() == old(self).total_len(),
            final(self).spec_current_index() >= old(self).spec_current_index(),
            r is Ok ==> final(self).spec_current_index() > old(self).spec_current_index(),
            r is Ok ==> exists|start: int, tail: Seq<u8>|
                #[trigger] long_tail(true, final(self).data(), start, tail)
                    && final(writer).written().len() >= old(writer).written().len() + tail.len()
                    && final(writer).written().subrange(0, old(writer).written().len() as int)
                    == old(writer).written() && final(writer).written().subrange(
                    final(writer).written().len() - tail.len(),
                    final(writer).written().len() as int,
                ) == tail,
            r matches Err(e) ==> long_error(true, e),
            match long_result(true, old(self).data().subrange(old(self).pos(), old(self).data().len() as int)) {
                Ok(t) => (r is Ok && final(writer).written() == old(writer).written() + t) || (r matches Err(
                    e,
                ) && e.error_type == ErrorType::IoError(IoError)),
                Err(je) => !spec_can_retry_if_partial(je) ==> (r matches Err(e) && e.error_type
                    == error_type_of(je.error_type)),
            },
            old(writer).never_fails() && long_result(true, old(self).data().subrange(old(self).pos(), old(self).data().len() as int)) is Ok
                ==> r is Ok && final(writer).written() == old(writer).written() + long_result(true, old(self).data().subrange(old(self).pos(), old(self).data().len() as int))->Ok_0,
            final(writer).never_fails() == old(writer).never_fails(),
            r is Ok ==> exists|segs: Seq<(u8, Seq<u8>)>, start: int, tail: Seq<u8>|
                #[trigger] long_copy(
                    true,
                    old(self).removed() + old(self).data().subrange(0, old(self).pos()),
                    final(self).removed(),
                    final(self).data(),
                    old(writer).written(),
                    final(writer).written(),
                    segs,
                    start,
                    tail,
                ),
    {
        self.handle_long(true, writer)
    }
}

impl Error {
    /// The line and column of the error in the stream that `rjiter` reads, which must
    /// not yet have shifted out the bytes at the error's index.
    pub fn get_position<R: Reader>(&self, rjiter: &RJiter<R>) -> (r: LinePosition)
        requires
            rjiter.wf(),
            self.index >= rjiter.removed().len(),
        ensures
            r.line == spec_find_position(rjiter.data(), self.index - rjiter.removed().len()).0
                + crate::buffer::line_col(rjiter.removed()).0,
            r.column == spec_find_position(rjiter.data(), self.index - rjiter.removed().len()).1
                + crate::buffer::line_col(rjiter.removed()).1,
    {
        rjiter.error_position(self.index)
    }
}

} // verus!
