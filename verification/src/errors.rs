//! The failure vocabulary shared by the builder and the parsers.  Every
//! operation returns a result that distinguishes success from one specific
//! failure kind; nothing is swallowed or downgraded.

use vstd::prelude::*;
use crate::message::{WireRequest, WireResponse};

verus! {

/// Why an outgoing build failed.
#[derive(Clone, Copy, PartialEq, Eq, Structural, Debug)]
pub enum EncodingError {
    /// The endpoint requires authentication and no credential was supplied.
    AuthRequired,
    /// A header value (or the credential) holds forbidden control bytes.
    InvalidHeader,
    /// A body value could not be encoded: an ill-formed document, or body
    /// member text outside the quote-free alphabet.
    BodySerialization,
}

/// Why an incoming parse failed.
#[derive(Clone, Copy, PartialEq, Eq, Structural, Debug)]
pub enum ParseErrorKind {
    /// The path has the wrong number of segments or a literal mismatch.
    PathShape,
    /// A dynamic path segment is not valid percent-encoding.
    PathSegmentDecode,
    /// The query string is not `key=value` pairs, or a pair fails to decode.
    QueryMalformed,
    /// A required query field is missing.
    MissingQueryParam,
    /// A required header field is missing.
    MissingHeader,
    /// The body is not the structured document the shape calls for.
    BodyMalformed,
    /// A required body member is missing.
    MissingBodyField,
}

/// A failed request parse; carries the original message for diagnostics.
#[derive(Debug, PartialEq, Eq)]
pub struct RequestDeserializationError {
    /// What went wrong.
    pub kind: ParseErrorKind,
    /// The message that failed to parse.
    pub message: WireRequest,
}

/// A failed success-response parse; carries the original message.
#[derive(Debug, PartialEq, Eq)]
pub struct ResponseDeserializationError {
    /// What went wrong.
    pub kind: ParseErrorKind,
    /// The message that failed to parse.
    pub message: WireResponse,
}

/// The decoded form of the protocol's well-known error payload.
#[derive(Debug, PartialEq, Eq)]
pub struct KnownServerError {
    /// The protocol error code.
    pub errcode: Vec<u8>,
    /// The human-readable error message.
    pub message: Vec<u8>,
    /// The response's status code.
    pub status: u16,
}

/// A non-success response: the protocol's well-known error payload when the
/// body matches it, otherwise the raw status and body.
#[derive(Debug, PartialEq, Eq)]
pub enum ServerError {
    /// The body decoded as the well-known error payload.
    Known(KnownServerError),
    /// The body did not match; the raw status and body are kept.
    Unknown(u16, Vec<u8>),
}

/// Everything a response parse can yield besides a success value.
#[derive(Debug, PartialEq, Eq)]
pub enum FromResponseError {
    /// A success-status response whose content failed to decode.
    Deserialization(ResponseDeserializationError),
    /// A non-success response, classified.
    Server(ServerError),
}

} // verus!
