use vstd::prelude::*;

use crate::io::IoError;

verus! {

/// Errors in JSON syntax, as reported by the JSON tokenizer.
#[derive(Debug, PartialEq, Eq, Clone)]
pub enum JsonErrorKind {
    FloatExpectingInt,
    DuplicateKey(String),
    InternalError(String),
    EofWhileParsingList,
    EofWhileParsingObject,
    EofWhileParsingString,
    EofWhileParsingValue,
    ExpectedColon,
    ExpectedListCommaOrEnd,
    ExpectedObjectCommaOrEnd,
    ExpectedSomeIdent,
    ExpectedSomeValue,
    InvalidEscape,
    InvalidNumber,
    NumberOutOfRange,
    InvalidUnicodeCodePoint,
    ControlCharacterWhileParsingString,
    KeyMustBeAString,
    LoneLeadingSurrogateInHexEscape,
    TrailingComma,
    TrailingCharacters,
    UnexpectedEndOfHexEscape,
    RecursionLimitExceeded,
}

/// The JSON types.
#[derive(Debug, Clone, Copy, PartialEq, Eq, Structural)]
pub enum JsonValueType {
    Null,
    Bool,
    Int,
    Float,
    String,
    Array,
    Object,
}

/// Errors of the JSON tokenizer: a syntax error or a value of the wrong type.
#[derive(Debug, Clone, PartialEq, Eq)]
pub enum TokenErrorType {
    JsonError(JsonErrorKind),
    WrongType { expected: JsonValueType, actual: JsonValueType },
}

/// An error of the JSON tokenizer, with its index in the tokenized bytes.
#[derive(Debug, Clone, PartialEq, Eq)]
pub struct TokenError {
    pub error_type: TokenErrorType,
    pub index: usize,
}

/// Like `TokenErrorType`, with I/O errors and a full working buffer.
#[derive(Debug, Clone, PartialEq, Eq)]
pub enum ErrorType {
    JsonError(JsonErrorKind),
    WrongType { expected: JsonValueType, actual: JsonValueType },
    IoError(IoError),
    BufferFull,
}

/// An error of `RJiter`: what went wrong and where in the stream.
#[derive(Debug, Clone, PartialEq, Eq)]
pub struct Error {
    pub error_type: ErrorType,
    pub index: usize,
}

/// A line and column in the JSON stream, both counted from 0 by this crate's buffer.
#[derive(Debug, Clone, Copy, PartialEq, Eq, Structural)]
pub struct LinePosition {
    pub line: usize,
    pub column: usize,
}

impl LinePosition {
    pub fn new(line: usize, column: usize) -> (r: Self)
        ensures
            r.line == line,
            r.column == column,
    {
        LinePosition { line, column }
    }
}

/// Whether a syntax error may go away when more input arrives.
pub open spec fn spec_allowed_if_partial(e: JsonErrorKind) -> bool {
    match e {
        JsonErrorKind::EofWhileParsingList => true,
        JsonErrorKind::EofWhileParsingObject => true,
        JsonErrorKind::EofWhileParsingString => true,
        JsonErrorKind::EofWhileParsingValue => true,
        JsonErrorKind::ExpectedListCommaOrEnd => true,
        JsonErrorKind::ExpectedObjectCommaOrEnd => true,
        _ => false,
    }
}

/// Whether a tokenizer error may go away when more input arrives.
pub open spec fn spec_can_retry_if_partial(e: TokenError) -> bool {
    match e.error_type {
        TokenErrorType::JsonError(t) => spec_allowed_if_partial(t),
        _ => false,
    }
}

pub fn allowed_if_partial(error_type: &JsonErrorKind) -> (r: bool)
    ensures
        r == spec_allowed_if_partial(*error_type),
{
    match error_type {
        JsonErrorKind::EofWhileParsingList => true,
        JsonErrorKind::EofWhileParsingObject => true,
        JsonErrorKind::EofWhileParsingString => true,
        JsonErrorKind::EofWhileParsingValue => true,
        JsonErrorKind::ExpectedListCommaOrEnd => true,
        JsonErrorKind::ExpectedObjectCommaOrEnd => true,
        _ => false,
    }
}

pub fn can_retry_if_partial(jiter_error: &TokenError) -> (r: bool)
    ensures
        r == spec_can_retry_if_partial(*jiter_error),
{
    match &jiter_error.error_type {
        TokenErrorType::JsonError(error_type) => allowed_if_partial(error_type),
        _ => false,
    }
}

/// The error type of a tokenizer error type.
pub open spec fn error_type_of(t: TokenErrorType) -> ErrorType {
    match t {
        TokenErrorType::JsonError(k) => ErrorType::JsonError(k),
        TokenErrorType::WrongType { expected, actual } => ErrorType::WrongType { expected, actual },
    }
}

impl Error {
    /// The error of a tokenizer error at `index` in the stream: the tokenizer's
    /// index is added to `index`, saturating at `usize::MAX`.
    pub fn from_jiter_error(index: usize, jiter_error: TokenError) -> (r: Error)
        ensures
            r.index == if index + jiter_error.index <= usize::MAX {
                index + jiter_error.index
            } else {
                usize::MAX as int
            },
            r.error_type == error_type_of(jiter_error.error_type),
    {
        Error {
            error_type: match jiter_error.error_type {
                TokenErrorType::JsonError(json_error_type) => ErrorType::JsonError(json_error_type),
                TokenErrorType::WrongType { expected, actual } => ErrorType::WrongType {
                    expected,
                    actual,
                },
            },
            index: index.saturating_add(jiter_error.index),
        }
    }

    pub fn from_json_error(index: usize, json_error_type: JsonErrorKind) -> (r: Error)
        ensures
            r.index == index,
            r.error_type == ErrorType::JsonError(json_error_type),
    {
        Error { error_type: ErrorType::JsonError(json_error_type), index }
    }

    pub fn from_io_error(index: usize, io_error: IoError) -> (r: Error)
        ensures
            r.index == index,
            r.error_type == ErrorType::IoError(io_error),
    {
        Error { error_type: ErrorType::IoError(io_error), index }
    }
}

} // verus!
