use crate::path::SxPath;
use vstd::prelude::*;

verus! {

/// Stable SX error codes.
#[derive(Debug, Clone, Copy, PartialEq, Eq, Structural)]
pub enum SxErrorCode {
    InvalidMagic,
    UnsupportedVersion,
    InvalidLength,
    SegmentOutOfBounds,
    ChecksumFailed,
    SchemaNotFound,
    TypeMismatch,
    RequiredFieldMissing,
    InvalidFieldId,
    InvalidDictionaryRef,
    InvalidShapeRef,
    MessageTooLarge,
    UnsupportedFeature,
    InvalidPath,
    DuplicateKey,
    ParseError,
    ValidationError,
    InvalidUtf8,
    InvalidNumber,
    UnexpectedEof,
    Internal,
}

/// The stable textual name of an error code.
pub open spec fn spec_code_name(code: SxErrorCode) -> Seq<char> {
    match code {
        SxErrorCode::InvalidMagic => "SX_INVALID_MAGIC"@,
        SxErrorCode::UnsupportedVersion => "SX_UNSUPPORTED_VERSION"@,
        SxErrorCode::InvalidLength => "SX_INVALID_LENGTH"@,
        SxErrorCode::SegmentOutOfBounds => "SX_SEGMENT_OUT_OF_BOUNDS"@,
        SxErrorCode::ChecksumFailed => "SX_CHECKSUM_FAILED"@,
        SxErrorCode::SchemaNotFound => "SX_SCHEMA_NOT_FOUND"@,
        SxErrorCode::TypeMismatch => "SX_TYPE_MISMATCH"@,
        SxErrorCode::RequiredFieldMissing => "SX_REQUIRED_FIELD_MISSING"@,
        SxErrorCode::InvalidFieldId => "SX_INVALID_FIELD_ID"@,
        SxErrorCode::InvalidDictionaryRef => "SX_INVALID_DICTIONARY_REF"@,
        SxErrorCode::InvalidShapeRef => "SX_INVALID_SHAPE_REF"@,
        SxErrorCode::MessageTooLarge => "SX_MESSAGE_TOO_LARGE"@,
        SxErrorCode::UnsupportedFeature => "SX_UNSUPPORTED"@,
        SxErrorCode::InvalidPath => "SX_INVALID_PATH"@,
        SxErrorCode::DuplicateKey => "SX_DUPLICATE_KEY"@,
        SxErrorCode::ParseError => "SX_PARSE_ERROR"@,
        SxErrorCode::ValidationError => "SX_VALIDATION_ERROR"@,
        SxErrorCode::InvalidUtf8 => "SX_INVALID_UTF8"@,
        SxErrorCode::InvalidNumber => "SX_INVALID_NUMBER"@,
        SxErrorCode::UnexpectedEof => "SX_UNEXPECTED_EOF"@,
        SxErrorCode::Internal => "SX_INTERNAL"@,
    }
}

impl SxErrorCode {
    /// Returns the stable textual name of the code, such as `SX_INVALID_MAGIC`.
    pub fn name(&self) -> (r: &'static str)
        ensures
            r@ == spec_code_name(*self),
    {
        match self {
            SxErrorCode::InvalidMagic => "SX_INVALID_MAGIC",
            SxErrorCode::UnsupportedVersion => "SX_UNSUPPORTED_VERSION",
            SxErrorCode::InvalidLength => "SX_INVALID_LENGTH",
            SxErrorCode::SegmentOutOfBounds => "SX_SEGMENT_OUT_OF_BOUNDS",
            SxErrorCode::ChecksumFailed => "SX_CHECKSUM_FAILED",
            SxErrorCode::SchemaNotFound => "SX_SCHEMA_NOT_FOUND",
            SxErrorCode::TypeMismatch => "SX_TYPE_MISMATCH",
            SxErrorCode::RequiredFieldMissing => "SX_REQUIRED_FIELD_MISSING",
            SxErrorCode::InvalidFieldId => "SX_INVALID_FIELD_ID",
            SxErrorCode::InvalidDictionaryRef => "SX_INVALID_DICTIONARY_REF",
            SxErrorCode::InvalidShapeRef => "SX_INVALID_SHAPE_REF",
            SxErrorCode::MessageTooLarge => "SX_MESSAGE_TOO_LARGE",
            SxErrorCode::UnsupportedFeature => "SX_UNSUPPORTED",
            SxErrorCode::InvalidPath => "SX_INVALID_PATH",
            SxErrorCode::DuplicateKey => "SX_DUPLICATE_KEY",
            SxErrorCode::ParseError => "SX_PARSE_ERROR",
            SxErrorCode::ValidationError => "SX_VALIDATION_ERROR",
            SxErrorCode::InvalidUtf8 => "SX_INVALID_UTF8",
            SxErrorCode::InvalidNumber => "SX_INVALID_NUMBER",
            SxErrorCode::UnexpectedEof => "SX_UNEXPECTED_EOF",
            SxErrorCode::Internal => "SX_INTERNAL",
        }
    }
}

/// Structured SX error with optional path context.
#[derive(Debug, Clone)]
pub struct SxError {
    pub code: SxErrorCode,
    pub message: String,
    pub path: Option<SxPath>,
}

/// Result alias for SX operations.
pub type SxResult<T> = Result<T, SxError>;

impl SxError {
    /// Creates a new error without path context.
    pub fn new(code: SxErrorCode, message: String) -> (r: SxError)
        ensures
            r.code == code,
            r.message@ == message@,
            r.path.is_none(),
    {
        SxError { code, message, path: None }
    }

    /// Creates a new error whose message is a string literal.
    pub fn msg(code: SxErrorCode, message: &str) -> (r: SxError)
        ensures
            r.code == code,
            r.message@ == message@,
            r.path.is_none(),
    {
        SxError { code, message: message.to_owned(), path: None }
    }

    /// Adds path context to an error.
    pub fn with_path(self, path: SxPath) -> (r: SxError)
        ensures
            r.code == self.code,
            r.message@ == self.message@,
            r.path == Some(path),
    {
        let mut e = self;
        e.path = Some(path);
        e
    }

    /// Renders the error as `<CODE>: <message>`.
    pub fn to_text(&self) -> (r: String)
        ensures
            r@ == spec_code_name(self.code) + ": "@ + self.message@,
    {
        let mut out = self.code.name().to_owned();
        out.append(": ");
        out.append(self.message.as_str());
        out
    }
}

} // verus!
