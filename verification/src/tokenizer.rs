use vstd::prelude::*;

use crate::rjiter_error::{TokenError, TokenErrorType, JsonErrorKind, JsonValueType, LinePosition};

verus! {

/// The first byte of the next JSON value, as seen by the tokenizer.
#[derive(Debug, Clone, Copy, PartialEq, Eq, Structural)]
pub struct Peeked {
    byte: u8,
}

impl Peeked {
    /// The peek of `null`.
    pub fn null() -> (r: Peeked)
        ensures
            r.spec_byte() == 110u8,
            r == Peeked::spec_null(),
    {
        Peeked { byte: 110u8 }
    }

    /// The peek of `true`.
    pub fn true_value() -> (r: Peeked)
        ensures
            r.spec_byte() == 116u8,
            r == Peeked::spec_true(),
    {
        Peeked { byte: 116u8 }
    }

    /// The peek of `false`.
    pub fn false_value() -> (r: Peeked)
        ensures
            r.spec_byte() == 102u8,
            r == Peeked::spec_false(),
    {
        Peeked { byte: 102u8 }
    }

    /// The peek of a negative number.
    pub fn minus() -> (r: Peeked)
        ensures
            r.spec_byte() == 45u8,
            r == Peeked::spec_minus(),
    {
        Peeked { byte: 45u8 }
    }

    /// The peek of `Infinity`.
    pub fn infinity() -> (r: Peeked)
        ensures
            r.spec_byte() == 73u8,
            r == Peeked::spec_infinity(),
    {
        Peeked { byte: 73u8 }
    }

    /// The peek of `NaN`.
    pub fn nan() -> (r: Peeked)
        ensures
            r.spec_byte() == 78u8,
            r == Peeked::spec_nan(),
    {
        Peeked { byte: 78u8 }
    }

    /// The peek of a string.
    pub fn string() -> (r: Peeked)
        ensures
            r.spec_byte() == 34u8,
            r == Peeked::spec_string(),
    {
        Peeked { byte: 34u8 }
    }

    /// The peek of an array.
    pub fn array() -> (r: Peeked)
        ensures
            r.spec_byte() == 91u8,
            r == Peeked::spec_array(),
    {
        Peeked { byte: 91u8 }
    }

    /// The peek of an object.
    pub fn object() -> (r: Peeked)
        ensures
            r.spec_byte() == 123u8,
            r == Peeked::spec_object(),
    {
        Peeked { byte: 123u8 }
    }

    /// The peek of the byte 110, in specifications.
    pub closed spec fn spec_null() -> Peeked {
        Peeked { byte: 110u8 }
    }

    /// The peek of the byte 116, in specifications.
    pub closed spec fn spec_true() -> Peeked {
        Peeked { byte: 116u8 }
    }

    /// The peek of the byte 102, in specifications.
    pub closed spec fn spec_false() -> Peeked {
        Peeked { byte: 102u8 }
    }

    /// The peek of the byte 45, in specifications.
    pub closed spec fn spec_minus() -> Peeked {
        Peeked { byte: 45u8 }
    }

    /// The peek of the byte 73, in specifications.
    pub closed spec fn spec_infinity() -> Peeked {
        Peeked { byte: 73u8 }
    }

    /// The peek of the byte 78, in specifications.
    pub closed spec fn spec_nan() -> Peeked {
        Peeked { byte: 78u8 }
    }

    /// The peek of the byte 34, in specifications.
    pub closed spec fn spec_string() -> Peeked {
        Peeked { byte: 34u8 }
    }

    /// The peek of the byte 91, in specifications.
    pub closed spec fn spec_array() -> Peeked {
        Peeked { byte: 91u8 }
    }

    /// The peek of the byte 123, in specifications.
    pub closed spec fn spec_object() -> Peeked {
        Peeked { byte: 123u8 }
    }

    /// The bytes of the named peeks.
    pub proof fn lemma_peek_bytes()
        ensures
            Peeked::spec_null().spec_byte() == 110u8,
            Peeked::spec_true().spec_byte() == 116u8,
            Peeked::spec_false().spec_byte() == 102u8,
            Peeked::spec_minus().spec_byte() == 45u8,
            Peeked::spec_infinity().spec_byte() == 73u8,
            Peeked::spec_nan().spec_byte() == 78u8,
            Peeked::spec_string().spec_byte() == 34u8,
            Peeked::spec_array().spec_byte() == 91u8,
            Peeked::spec_object().spec_byte() == 123u8,
    {
    }

    /// The byte of this peek.
    pub closed spec fn spec_byte(self) -> u8 {
        self.byte
    }

    /// A peek of the byte `next`.
    pub fn new(next: u8) -> (r: Peeked)
        ensures
            r.spec_byte() == next,
    {
        Peeked { byte: next }
    }

    /// The byte of this peek.
    pub fn into_inner(self) -> (r: u8)
        ensures
            r == self.spec_byte(),
    {
        self.byte
    }

    /// Whether the byte starts a number: a digit, `-`, `I` (Infinity) or `N` (NaN).
    pub fn is_num(self) -> (r: bool)
        ensures
            r == ((48u8 <= self.spec_byte() <= 57u8) || self.spec_byte() == 45u8
                || self.spec_byte() == 73u8 || self.spec_byte() == 78u8),
    {
        (48u8 <= self.byte && self.byte <= 57u8) || self.byte == 45u8 || self.byte == 73u8
            || self.byte == 78u8
    }
}

/// An integer read by the tokenizer: a machine integer, or the decimal text of one
/// outside the range of `i64`.
#[derive(Debug, Clone, PartialEq, Eq)]
pub enum NumberInt {
    Int(i64),
    BigInt(Vec<u8>),
}

/// An integer read by the tokenizer, with the text of a large one as a sequence.
pub enum IntView {
    Int(i64),
    BigInt(Seq<u8>),
}

impl NumberInt {
    /// This integer with the text of a large one as a sequence.
    pub open spec fn view_int(&self) -> IntView {
        match self {
            NumberInt::Int(i) => IntView::Int(*i),
            NumberInt::BigInt(t) => IntView::BigInt(t@),
        }
    }
}

// ---------------------------------------------------------------------------
// Names of what the tokenizer returns. Each takes the bytes that the tokenizer
// is handed (its data starts at the tokenizer's position) and gives the outcome
// and the index the tokenizer reached, relative to the start of those bytes.
/// What `jiter::Jiter::peek` gives on these bytes.
pub uninterp spec fn jiter_peek(window: Seq<u8>) -> (Result<Peeked, TokenError>, usize);

/// What `jiter::Jiter::known_array` gives on these bytes.
pub uninterp spec fn jiter_known_array(window: Seq<u8>) -> (Result<Option<Peeked>, TokenError>, usize);

/// What `jiter::Jiter::known_bool` gives on these bytes and the peeked byte.
pub uninterp spec fn jiter_known_bool(window: Seq<u8>, peek: u8) -> (Result<bool, TokenError>, usize);

/// What `jiter::Jiter::known_bytes` gives on these bytes.
pub uninterp spec fn jiter_known_bytes(window: Seq<u8>) -> (Result<Seq<u8>, TokenError>, usize);

/// What `jiter::Jiter::known_int` gives on these bytes and the peeked byte.
pub uninterp spec fn jiter_known_int(window: Seq<u8>, peek: u8) -> (Result<IntView, TokenError>, usize);

/// What `jiter::Jiter::next_int` gives on these bytes.
pub uninterp spec fn jiter_next_int(window: Seq<u8>) -> (Result<IntView, TokenError>, usize);

/// What `jiter::Jiter::known_null` gives on these bytes.
pub uninterp spec fn jiter_known_null(window: Seq<u8>) -> (Result<(), TokenError>, usize);

/// What `jiter::Jiter::known_object` gives on these bytes.
pub uninterp spec fn jiter_known_object(window: Seq<u8>) -> (
    Result<Option<Seq<char>>, TokenError>,
    usize,
);

/// What `jiter::Jiter::known_skip` gives on these bytes and the peeked byte.
pub uninterp spec fn jiter_known_skip(window: Seq<u8>, peek: u8) -> (Result<(), TokenError>, usize);

/// What `jiter::Jiter::known_str` gives on these bytes.
pub uninterp spec fn jiter_known_str(window: Seq<u8>) -> (Result<Seq<char>, TokenError>, usize);

/// What `jiter::Jiter::next_array` gives on these bytes.
pub uninterp spec fn jiter_next_array(window: Seq<u8>) -> (Result<Option<Peeked>, TokenError>, usize);

/// What `jiter::Jiter::array_step` gives on these bytes.
pub uninterp spec fn jiter_array_step(window: Seq<u8>) -> (Result<Option<Peeked>, TokenError>, usize);

/// What `jiter::Jiter::next_bool` gives on these bytes.
pub uninterp spec fn jiter_next_bool(window: Seq<u8>) -> (Result<bool, TokenError>, usize);

/// What `jiter::Jiter::next_bytes` gives on these bytes.
pub uninterp spec fn jiter_next_bytes(window: Seq<u8>) -> (Result<Seq<u8>, TokenError>, usize);

/// What `jiter::Jiter::next_key` gives on these bytes.
pub uninterp spec fn jiter_next_key(window: Seq<u8>) -> (Result<Option<Seq<char>>, TokenError>, usize);

/// What `jiter::Jiter::next_key_bytes` gives on these bytes.
pub uninterp spec fn jiter_next_key_bytes(window: Seq<u8>) -> (
    Result<Option<Seq<u8>>, TokenError>,
    usize,
);

/// What `jiter::Jiter::next_null` gives on these bytes.
pub uninterp spec fn jiter_next_null(window: Seq<u8>) -> (Result<(), TokenError>, usize);

/// What `jiter::Jiter::next_number_bytes` gives on these bytes.
pub uninterp spec fn jiter_next_number_bytes(window: Seq<u8>) -> (Result<Seq<u8>, TokenError>, usize);

/// What `jiter::Jiter::next_object` gives on these bytes.
pub uninterp spec fn jiter_next_object(window: Seq<u8>) -> (
    Result<Option<Seq<char>>, TokenError>,
    usize,
);

/// What `jiter::Jiter::next_object_bytes` gives on these bytes.
pub uninterp spec fn jiter_next_object_bytes(window: Seq<u8>) -> (
    Result<Option<Seq<u8>>, TokenError>,
    usize,
);

/// What `jiter::Jiter::next_skip` gives on these bytes.
pub uninterp spec fn jiter_next_skip(window: Seq<u8>) -> (Result<(), TokenError>, usize);

/// What `jiter::Jiter::next_str` gives on these bytes.
pub uninterp spec fn jiter_next_str(window: Seq<u8>) -> (Result<Seq<char>, TokenError>, usize);

/// What `jiter::Jiter::finish` gives on these bytes.
pub uninterp spec fn jiter_finish(window: Seq<u8>) -> (Result<(), TokenError>, usize);

/// Views of tokenizer outcomes that hold owned bytes or text.
pub open spec fn bytes_view(r: (Result<Vec<u8>, TokenError>, usize)) -> (Result<Seq<u8>, TokenError>, usize) {
    (
        match r.0 {
            Ok(v) => Ok(v@),
            Err(e) => Err(e),
        },
        r.1,
    )
}

pub open spec fn int_view(r: (Result<NumberInt, TokenError>, usize)) -> (Result<IntView, TokenError>, usize) {
    (
        match r.0 {
            Ok(n) => Ok(n.view_int()),
            Err(e) => Err(e),
        },
        r.1,
    )
}

pub open spec fn opt_bytes_view(r: (Result<Option<Vec<u8>>, TokenError>, usize)) -> (
    Result<Option<Seq<u8>>, TokenError>,
    usize,
) {
    (
        match r.0 {
            Ok(Some(v)) => Ok(Some(v@)),
            Ok(None) => Ok(None),
            Err(e) => Err(e),
        },
        r.1,
    )
}

pub open spec fn str_view(r: (Result<String, TokenError>, usize)) -> (Result<Seq<char>, TokenError>, usize) {
    (
        match r.0 {
            Ok(v) => Ok(v@),
            Err(e) => Err(e),
        },
        r.1,
    )
}

pub open spec fn opt_str_view(r: (Result<Option<String>, TokenError>, usize)) -> (
    Result<Option<Seq<char>>, TokenError>,
    usize,
) {
    (
        match r.0 {
            Ok(Some(v)) => Ok(Some(v@)),
            Ok(None) => Ok(None),
            Err(e) => Err(e),
        },
        r.1,
    )
}

// ---------------------------------------------------------------------------
// The tokenizer's own types, carried only into the conversions below.
#[verifier::external_type_specification]
#[verifier::external_body]
pub struct ExJiterPeek(jiter::Peek);

#[verifier::external_type_specification]
#[verifier::external_body]
pub struct ExJiterJsonType(jiter::JsonType);

#[verifier::external_type_specification]
#[verifier::external_body]
pub struct ExJiterJsonErrorType(jiter::JsonErrorType);

#[verifier::external_type_specification]
#[verifier::external_body]
pub struct ExJiterError(jiter::JiterError);

// ---------------------------------------------------------------------------
// Conversions of the tokenizer's error values, variant for variant.
/// Converts `jiter::JsonType` to the library's `JsonValueType`.
#[verifier::external_body]
fn convert_json_type(t: jiter::JsonType) -> JsonValueType {
    match t {
        jiter::JsonType::Null => JsonValueType::Null,
        jiter::JsonType::Bool => JsonValueType::Bool,
        jiter::JsonType::Int => JsonValueType::Int,
        jiter::JsonType::Float => JsonValueType::Float,
        jiter::JsonType::String => JsonValueType::String,
        jiter::JsonType::Array => JsonValueType::Array,
        jiter::JsonType::Object => JsonValueType::Object,
    }
}

/// Converts the first variants of `jiter::JsonErrorType`; the others are handed back.
#[verifier::external_body]
fn convert_json_error_head(e: jiter::JsonErrorType) -> Result<JsonErrorKind, jiter::JsonErrorType> {
    match e {
        jiter::JsonErrorType::FloatExpectingInt => Ok(JsonErrorKind::FloatExpectingInt),
        jiter::JsonErrorType::DuplicateKey(s) => Ok(JsonErrorKind::DuplicateKey(s)),
        jiter::JsonErrorType::InternalError(s) => Ok(JsonErrorKind::InternalError(s)),
        jiter::JsonErrorType::EofWhileParsingList => Ok(JsonErrorKind::EofWhileParsingList),
        jiter::JsonErrorType::EofWhileParsingObject => Ok(JsonErrorKind::EofWhileParsingObject),
        jiter::JsonErrorType::EofWhileParsingString => Ok(JsonErrorKind::EofWhileParsingString),
        jiter::JsonErrorType::EofWhileParsingValue => Ok(JsonErrorKind::EofWhileParsingValue),
        jiter::JsonErrorType::ExpectedColon => Ok(JsonErrorKind::ExpectedColon),
        other => Err(other),
    }
}

/// Converts the middle variants of `jiter::JsonErrorType`; the others are handed back.
#[verifier::external_body]
fn convert_json_error_middle(e: jiter::JsonErrorType) -> Result<JsonErrorKind, jiter::JsonErrorType> {
    match e {
        jiter::JsonErrorType::ExpectedListCommaOrEnd => Ok(JsonErrorKind::ExpectedListCommaOrEnd),
        jiter::JsonErrorType::ExpectedObjectCommaOrEnd => Ok(JsonErrorKind::ExpectedObjectCommaOrEnd),
        jiter::JsonErrorType::ExpectedSomeIdent => Ok(JsonErrorKind::ExpectedSomeIdent),
        jiter::JsonErrorType::ExpectedSomeValue => Ok(JsonErrorKind::ExpectedSomeValue),
        jiter::JsonErrorType::InvalidEscape => Ok(JsonErrorKind::InvalidEscape),
        jiter::JsonErrorType::InvalidNumber => Ok(JsonErrorKind::InvalidNumber),
        jiter::JsonErrorType::NumberOutOfRange => Ok(JsonErrorKind::NumberOutOfRange),
        jiter::JsonErrorType::InvalidUnicodeCodePoint => Ok(JsonErrorKind::InvalidUnicodeCodePoint),
        other => Err(other),
    }
}

/// Converts the last variants of `jiter::JsonErrorType`.
#[verifier::external_body]
fn convert_json_error_tail(e: jiter::JsonErrorType) -> JsonErrorKind {
    match e {
        jiter::JsonErrorType::ControlCharacterWhileParsingString => JsonErrorKind::ControlCharacterWhileParsingString,
        jiter::JsonErrorType::KeyMustBeAString => JsonErrorKind::KeyMustBeAString,
        jiter::JsonErrorType::LoneLeadingSurrogateInHexEscape => JsonErrorKind::LoneLeadingSurrogateInHexEscape,
        jiter::JsonErrorType::TrailingComma => JsonErrorKind::TrailingComma,
        jiter::JsonErrorType::TrailingCharacters => JsonErrorKind::TrailingCharacters,
        jiter::JsonErrorType::UnexpectedEndOfHexEscape => JsonErrorKind::UnexpectedEndOfHexEscape,
        _ => JsonErrorKind::RecursionLimitExceeded,
    }
}

/// Converts `jiter::JsonErrorType` to the library's `JsonErrorKind`.
#[verifier::external_body]
fn convert_json_error(t: jiter::JsonErrorType) -> JsonErrorKind {
    match convert_json_error_head(t) {
        Ok(c) => c,
        Err(t) => match convert_json_error_middle(t) {
            Ok(c) => c,
            Err(t) => convert_json_error_tail(t),
        },
    }
}

/// Converts `jiter::JiterError` to the library's `TokenError`, keeping its index.
#[verifier::external_body]
fn convert_error(e: jiter::JiterError) -> TokenError {
    let error_type = match e.error_type {
        jiter::JiterErrorType::WrongType { expected, actual } => TokenErrorType::WrongType {
            expected: convert_json_type(expected),
            actual: convert_json_type(actual),
        },
        jiter::JiterErrorType::JsonError(t) => TokenErrorType::JsonError(convert_json_error(t)),
    };
    TokenError { error_type, index: e.index }
}

/// Converts a peek of the tokenizer to the library's.
#[verifier::external_body]
fn convert_peek(p: jiter::Peek) -> Peeked {
    Peeked::new(p.into_inner())
}

// ---------------------------------------------------------------------------
// Calls of the tokenizer, each on a fresh `jiter::Jiter` over `window`.
/// Calls `jiter::Jiter::peek` on `window`; the outcome is `jiter_peek(window)`.
/// On success the tokenizer stops at the byte it peeked, inside `window`.
#[verifier::external_body]
pub(crate) fn call_peek(window: &[u8]) -> (r: (Result<Peeked, TokenError>, usize))
    ensures
        r == jiter_peek(window@),
        r.0 is Ok ==> r.1 < window@.len(),
{
    let mut jiter = jiter::Jiter::new(window);
    let result = jiter.peek();
    let index = jiter.current_index();
    match result {
        Ok(p) => (Ok(convert_peek(p)), index),
        Err(e) => (Err(convert_error(e)), index),
    }
}

/// Calls `jiter::Jiter::known_array` on `window`; the outcome is `jiter_known_array(window)`.
/// On success the tokenizer has moved past at least one byte, and not past the end
/// of `window`: its parser moves only over bytes it has matched.
#[verifier::external_body]
pub(crate) fn call_known_array(window: &[u8]) -> (r: (Result<Option<Peeked>, TokenError>, usize))
    ensures
        r == jiter_known_array(window@),
        r.0 is Ok ==> 1 <= r.1 <= window@.len(),
{
    let mut jiter = jiter::Jiter::new(window);
    let result = jiter.known_array();
    let index = jiter.current_index();
    match result {
        Ok(Some(p)) => (Ok(Some(convert_peek(p))), index),
        Ok(None) => (Ok(None), index),
        Err(e) => (Err(convert_error(e)), index),
    }
}

/// Calls `jiter::Jiter::next_array` on `window`; the outcome is `jiter_next_array(window)`.
/// On success the tokenizer has moved past at least one byte, and not past the end
/// of `window`: its parser moves only over bytes it has matched.
#[verifier::external_body]
pub(crate) fn call_next_array(window: &[u8]) -> (r: (Result<Option<Peeked>, TokenError>, usize))
    ensures
        r == jiter_next_array(window@),
        r.0 is Ok ==> 1 <= r.1 <= window@.len(),
{
    let mut jiter = jiter::Jiter::new(window);
    let result = jiter.next_array();
    let index = jiter.current_index();
    match result {
        Ok(Some(p)) => (Ok(Some(convert_peek(p))), index),
        Ok(None) => (Ok(None), index),
        Err(e) => (Err(convert_error(e)), index),
    }
}

/// Calls `jiter::Jiter::array_step` on `window`; the outcome is `jiter_array_step(window)`.
/// On success the tokenizer has moved past at least one byte, and not past the end
/// of `window`: its parser moves only over bytes it has matched.
#[verifier::external_body]
pub(crate) fn call_array_step(window: &[u8]) -> (r: (Result<Option<Peeked>, TokenError>, usize))
    ensures
        r == jiter_array_step(window@),
        r.0 is Ok ==> 1 <= r.1 <= window@.len(),
{
    let mut jiter = jiter::Jiter::new(window);
    let result = jiter.array_step();
    let index = jiter.current_index();
    match result {
        Ok(Some(p)) => (Ok(Some(convert_peek(p))), index),
        Ok(None) => (Ok(None), index),
        Err(e) => (Err(convert_error(e)), index),
    }
}

/// Calls `jiter::Jiter::known_bool` with the peek of `peek` on `window`; the outcome is
/// `jiter_known_bool(window, peek)`.
/// On success the tokenizer has moved past at least one byte, and not past the end
/// of `window`: its parser moves only over bytes it has matched.
#[verifier::external_body]
pub(crate) fn call_known_bool(window: &[u8], peek: u8) -> (r: (Result<bool, TokenError>, usize))
    ensures
        r == jiter_known_bool(window@, peek),
        r.0 is Ok ==> 1 <= r.1 <= window@.len(),
{
    let mut jiter = jiter::Jiter::new(window);
    let result = jiter.known_bool(jiter::Peek::new(peek));
    let index = jiter.current_index();
    match result {
        Ok(b) => (Ok(b), index),
        Err(e) => (Err(convert_error(e)), index),
    }
}

/// Calls `jiter::Jiter::next_bool` on `window`; the outcome is `jiter_next_bool(window)`.
/// On success the tokenizer has moved past at least one byte, and not past the end
/// of `window`: its parser moves only over bytes it has matched.
#[verifier::external_body]
pub(crate) fn call_next_bool(window: &[u8]) -> (r: (Result<bool, TokenError>, usize))
    ensures
        r == jiter_next_bool(window@),
        r.0 is Ok ==> 1 <= r.1 <= window@.len(),
{
    let mut jiter = jiter::Jiter::new(window);
    let result = jiter.next_bool();
    let index = jiter.current_index();
    match result {
        Ok(b) => (Ok(b), index),
        Err(e) => (Err(convert_error(e)), index),
    }
}

/// Calls `jiter::Jiter::known_null` on `window`; the outcome is `jiter_known_null(window)`.
/// On success the tokenizer has moved past at least one byte, and not past the end
/// of `window`: its parser moves only over bytes it has matched.
#[verifier::external_body]
pub(crate) fn call_known_null(window: &[u8]) -> (r: (Result<(), TokenError>, usize))
    ensures
        r == jiter_known_null(window@),
        r.0 is Ok ==> 1 <= r.1 <= window@.len(),
{
    let mut jiter = jiter::Jiter::new(window);
    let result = jiter.known_null();
    let index = jiter.current_index();
    match result {
        Ok(()) => (Ok(()), index),
        Err(e) => (Err(convert_error(e)), index),
    }
}

/// Calls `jiter::Jiter::next_null` on `window`; the outcome is `jiter_next_null(window)`.
/// On success the tokenizer has moved past at least one byte, and not past the end
/// of `window`: its parser moves only over bytes it has matched.
#[verifier::external_body]
pub(crate) fn call_next_null(window: &[u8]) -> (r: (Result<(), TokenError>, usize))
    ensures
        r == jiter_next_null(window@),
        r.0 is Ok ==> 1 <= r.1 <= window@.len(),
{
    let mut jiter = jiter::Jiter::new(window);
    let result = jiter.next_null();
    let index = jiter.current_index();
    match result {
        Ok(()) => (Ok(()), index),
        Err(e) => (Err(convert_error(e)), index),
    }
}

/// Calls `jiter::Jiter::known_skip` with the peek of `peek` on `window`; the outcome is
/// `jiter_known_skip(window, peek)`.
/// On success the tokenizer has moved past at least one byte, and not past the end
/// of a non-empty `window`. The first byte of a number is taken from `peek`, not
/// read from `window`, so on an empty window a one-digit number succeeds at index 1.
#[verifier::external_body]
pub(crate) fn call_known_skip(window: &[u8], peek: u8) -> (r: (Result<(), TokenError>, usize))
    ensures
        r == jiter_known_skip(window@, peek),
        r.0 is Ok ==> 1 <= r.1 && (r.1 <= window@.len() || (window@.len() == 0 && r.1 == 1)),
{
    let mut jiter = jiter::Jiter::new(window);
    let result = jiter.known_skip(jiter::Peek::new(peek));
    let index = jiter.current_index();
    match result {
        Ok(()) => (Ok(()), index),
        Err(e) => (Err(convert_error(e)), index),
    }
}

/// Calls `jiter::Jiter::next_skip` on `window`; the outcome is `jiter_next_skip(window)`.
/// On success the tokenizer has moved past at least one byte, and not past the end
/// of `window`: its parser moves only over bytes it has matched.
#[verifier::external_body]
pub(crate) fn call_next_skip(window: &[u8]) -> (r: (Result<(), TokenError>, usize))
    ensures
        r == jiter_next_skip(window@),
        r.0 is Ok ==> 1 <= r.1 <= window@.len(),
{
    let mut jiter = jiter::Jiter::new(window);
    let result = jiter.next_skip();
    let index = jiter.current_index();
    match result {
        Ok(()) => (Ok(()), index),
        Err(e) => (Err(convert_error(e)), index),
    }
}

/// Calls `jiter::Jiter::known_int` with the peek of `peek` on `window`; the outcome, with
/// a large integer as its decimal text, is `jiter_known_int(window, peek)`.
/// On success the tokenizer has moved past at least one byte, and not past the end
/// of a non-empty `window`. The first byte of the number is taken from `peek`, not
/// read from `window`, so on an empty window a one-digit number succeeds at index 1.
#[verifier::external_body]
pub(crate) fn call_known_int(window: &[u8], peek: u8) -> (r: (Result<NumberInt, TokenError>, usize))
    ensures
        int_view(r) == jiter_known_int(window@, peek),
        r.0 is Ok ==> 1 <= r.1 && (r.1 <= window@.len() || (window@.len() == 0 && r.1 == 1)),
{
    let mut jiter = jiter::Jiter::new(window);
    let result = jiter.known_int(jiter::Peek::new(peek));
    let index = jiter.current_index();
    match result {
        Ok(jiter::NumberInt::Int(i)) => (Ok(NumberInt::Int(i)), index),
        Ok(jiter::NumberInt::BigInt(b)) => (Ok(NumberInt::BigInt(b.to_string().into_bytes())), index),
        Err(e) => (Err(convert_error(e)), index),
    }
}

/// Calls `jiter::Jiter::next_int` on `window`; the outcome, with a large integer as its
/// decimal text, is `jiter_next_int(window)`.
/// On success the tokenizer has moved past at least one byte, and not past the end
/// of `window`: its parser moves only over bytes it has matched.
#[verifier::external_body]
pub(crate) fn call_next_int(window: &[u8]) -> (r: (Result<NumberInt, TokenError>, usize))
    ensures
        int_view(r) == jiter_next_int(window@),
        r.0 is Ok ==> 1 <= r.1 <= window@.len(),
{
    let mut jiter = jiter::Jiter::new(window);
    let result = jiter.next_int();
    let index = jiter.current_index();
    match result {
        Ok(jiter::NumberInt::Int(i)) => (Ok(NumberInt::Int(i)), index),
        Ok(jiter::NumberInt::BigInt(b)) => (Ok(NumberInt::BigInt(b.to_string().into_bytes())), index),
        Err(e) => (Err(convert_error(e)), index),
    }
}

/// Calls `jiter::Jiter::finish` on `window`; the outcome is `jiter_finish(window)`.
#[verifier::external_body]
pub(crate) fn call_finish(window: &[u8]) -> (r: (Result<(), TokenError>, usize))
    ensures
        r == jiter_finish(window@),
{
    let mut jiter = jiter::Jiter::new(window);
    let result = jiter.finish();
    let index = jiter.current_index();
    match result {
        Ok(()) => (Ok(()), index),
        Err(e) => (Err(convert_error(e)), index),
    }
}

/// Calls `jiter::Jiter::known_bytes` on `window`; the outcome, with the bytes copied,
/// is `jiter_known_bytes(window)`.
/// On success the tokenizer has moved past at least one byte, and not past the end
/// of `window`: its parser moves only over bytes it has matched.
#[verifier::external_body]
pub(crate) fn call_known_bytes(window: &[u8]) -> (r: (Result<Vec<u8>, TokenError>, usize))
    ensures
        bytes_view(r) == jiter_known_bytes(window@),
        r.0 is Ok ==> 1 <= r.1 <= window@.len(),
{
    let mut jiter = jiter::Jiter::new(window);
    let result = jiter.known_bytes().map(|b| b.to_vec());
    let index = jiter.current_index();
    match result {
        Ok(b) => (Ok(b), index),
        Err(e) => (Err(convert_error(e)), index),
    }
}

/// Calls `jiter::Jiter::next_bytes` on `window`; the outcome, with the bytes copied,
/// is `jiter_next_bytes(window)`.
/// On success the tokenizer has moved past at least one byte, and not past the end
/// of `window`: its parser moves only over bytes it has matched.
#[verifier::external_body]
pub(crate) fn call_next_bytes(window: &[u8]) -> (r: (Result<Vec<u8>, TokenError>, usize))
    ensures
        bytes_view(r) == jiter_next_bytes(window@),
        r.0 is Ok ==> 1 <= r.1 <= window@.len(),
{
    let mut jiter = jiter::Jiter::new(window);
    let result = jiter.next_bytes().map(|b| b.to_vec());
    let index = jiter.current_index();
    match result {
        Ok(b) => (Ok(b), index),
        Err(e) => (Err(convert_error(e)), index),
    }
}

/// Calls `jiter::Jiter::next_number_bytes` on `window`; the outcome, with the bytes
/// copied, is `jiter_next_number_bytes(window)`.
/// On success the tokenizer has moved past at least one byte, and not past the end
/// of `window`: its parser moves only over bytes it has matched.
#[verifier::external_body]
pub(crate) fn call_next_number_bytes(window: &[u8]) -> (r: (Result<Vec<u8>, TokenError>, usize))
    ensures
        bytes_view(r) == jiter_next_number_bytes(window@),
        r.0 is Ok ==> 1 <= r.1 <= window@.len(),
{
    let mut jiter = jiter::Jiter::new(window);
    let result = jiter.next_number_bytes().map(|b| b.to_vec());
    let index = jiter.current_index();
    match result {
        Ok(b) => (Ok(b), index),
        Err(e) => (Err(convert_error(e)), index),
    }
}

/// Calls `jiter::Jiter::next_key_bytes` on `window`; the outcome, with the bytes
/// copied, is `jiter_next_key_bytes(window)`.
/// On success the tokenizer has moved past at least one byte, and not past the end
/// of `window`: its parser moves only over bytes it has matched.
#[verifier::external_body]
pub(crate) fn call_next_key_bytes(window: &[u8]) -> (r: (Result<Option<Vec<u8>>, TokenError>, usize))
    ensures
        opt_bytes_view(r) == jiter_next_key_bytes(window@),
        r.0 is Ok ==> 1 <= r.1 <= window@.len(),
{
    let mut jiter = jiter::Jiter::new(window);
    let result = jiter.next_key_bytes().map(|k| k.map(|b| b.to_vec()));
    let index = jiter.current_index();
    match result {
        Ok(k) => (Ok(k), index),
        Err(e) => (Err(convert_error(e)), index),
    }
}

/// Calls `jiter::Jiter::next_object_bytes` on `window`; the outcome, with the bytes
/// copied, is `jiter_next_object_bytes(window)`.
/// On success the tokenizer has moved past at least one byte, and not past the end
/// of `window`: its parser moves only over bytes it has matched.
#[verifier::external_body]
pub(crate) fn call_next_object_bytes(window: &[u8]) -> (r: (
    Result<Option<Vec<u8>>, TokenError>,
    usize,
))
    ensures
        opt_bytes_view(r) == jiter_next_object_bytes(window@),
        r.0 is Ok ==> 1 <= r.1 <= window@.len(),
{
    let mut jiter = jiter::Jiter::new(window);
    let result = jiter.next_object_bytes().map(|k| k.map(|b| b.to_vec()));
    let index = jiter.current_index();
    match result {
        Ok(k) => (Ok(k), index),
        Err(e) => (Err(convert_error(e)), index),
    }
}

/// Calls `jiter::Jiter::known_str` on `window`; the outcome, with the text copied,
/// is `jiter_known_str(window)`.
/// On success the tokenizer has moved past at least one byte, and not past the end
/// of `window`: its parser moves only over bytes it has matched.
#[verifier::external_body]
pub(crate) fn call_known_str(window: &[u8]) -> (r: (Result<String, TokenError>, usize))
    ensures
        str_view(r) == jiter_known_str(window@),
        r.0 is Ok ==> 1 <= r.1 <= window@.len(),
{
    let mut jiter = jiter::Jiter::new(window);
    let result = jiter.known_str().map(|s| s.to_string());
    let index = jiter.current_index();
    match result {
        Ok(s) => (Ok(s), index),
        Err(e) => (Err(convert_error(e)), index),
    }
}

/// Calls `jiter::Jiter::next_str` on `window`; the outcome, with the text copied,
/// is `jiter_next_str(window)`.
/// On success the tokenizer has moved past at least one byte, and not past the end
/// of `window`: its parser moves only over bytes it has matched.
#[verifier::external_body]
pub(crate) fn call_next_str(window: &[u8]) -> (r: (Result<String, TokenError>, usize))
    ensures
        str_view(r) == jiter_next_str(window@),
        r.0 is Ok ==> 1 <= r.1 <= window@.len(),
{
    let mut jiter = jiter::Jiter::new(window);
    let result = jiter.next_str().map(|s| s.to_string());
    let index = jiter.current_index();
    match result {
        Ok(s) => (Ok(s), index),
        Err(e) => (Err(convert_error(e)), index),
    }
}

/// Calls `jiter::Jiter::known_object` on `window`; the outcome, with the key copied,
/// is `jiter_known_object(window)`.
/// On success the tokenizer has moved past at least one byte, and not past the end
/// of `window`: its parser moves only over bytes it has matched.
#[verifier::external_body]
pub(crate) fn call_known_object(window: &[u8]) -> (r: (Result<Option<String>, TokenError>, usize))
    ensures
        opt_str_view(r) == jiter_known_object(window@),
        r.0 is Ok ==> 1 <= r.1 <= window@.len(),
{
    let mut jiter = jiter::Jiter::new(window);
    let result = jiter.known_object().map(|k| k.map(|s| s.to_string()));
    let index = jiter.current_index();
    match result {
        Ok(k) => (Ok(k), index),
        Err(e) => (Err(convert_error(e)), index),
    }
}

/// Calls `jiter::Jiter::next_object` on `window`; the outcome, with the key copied,
/// is `jiter_next_object(window)`.
/// On success the tokenizer has moved past at least one byte, and not past the end
/// of `window`: its parser moves only over bytes it has matched.
#[verifier::external_body]
pub(crate) fn call_next_object(window: &[u8]) -> (r: (Result<Option<String>, TokenError>, usize))
    ensures
        opt_str_view(r) == jiter_next_object(window@),
        r.0 is Ok ==> 1 <= r.1 <= window@.len(),
{
    let mut jiter = jiter::Jiter::new(window);
    let result = jiter.next_object().map(|k| k.map(|s| s.to_string()));
    let index = jiter.current_index();
    match result {
        Ok(k) => (Ok(k), index),
        Err(e) => (Err(convert_error(e)), index),
    }
}

/// Calls `jiter::Jiter::next_key` on `window`; the outcome, with the key copied,
/// is `jiter_next_key(window)`.
/// On success the tokenizer has moved past at least one byte, and not past the end
/// of `window`: its parser moves only over bytes it has matched.
#[verifier::external_body]
pub(crate) fn call_next_key(window: &[u8]) -> (r: (Result<Option<String>, TokenError>, usize))
    ensures
        opt_str_view(r) == jiter_next_key(window@),
        r.0 is Ok ==> 1 <= r.1 <= window@.len(),
{
    let mut jiter = jiter::Jiter::new(window);
    let result = jiter.next_key().map(|k| k.map(|s| s.to_string()));
    let index = jiter.current_index();
    match result {
        Ok(k) => (Ok(k), index),
        Err(e) => (Err(convert_error(e)), index),
    }
}

/// The line (from 1) and column of the byte at `find` in `data`, as
/// `jiter::LinePosition::find` computes it: the column counts from 1 within the
/// line, and a newline belongs to the line it ends with column 0 of the next line.
/// Past the end of `data`, the position after the last byte.
pub open spec fn spec_find_position(data: Seq<u8>, find: int) -> (int, int) {
    let s = if 0 <= find < data.len() {
        data.subrange(0, find + 1)
    } else {
        data
    };
    (1 + crate::buffer::line_col(s).0 as int, crate::buffer::line_col(s).1 as int)
}

/// Calls `jiter::LinePosition::find`: the line and column of the byte at `find` in
/// `data`, as `spec_find_position` states it.
#[verifier::external_body]
pub(crate) fn call_find_position(data: &[u8], find: usize) -> (r: LinePosition)
    ensures
        r.line == spec_find_position(data@, find as int).0,
        r.column == spec_find_position(data@, find as int).1,
{
    let p = jiter::LinePosition::find(data, find);
    LinePosition { line: p.line, column: p.column }
}

} // verus!
