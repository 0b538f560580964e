//! Errors of the protocol itself.

use vstd::prelude::*;

use crate::protocol::version::{mismatch_text, VersionMismatch};

verus! {

/// What went wrong.
#[derive(Debug, Clone, Copy, PartialEq, Eq, Structural)]
pub enum ErrorCode {
    /// The major versions differ.
    VersionMismatch,
    /// The request is not known here.
    UnsupportedRequest,
    /// The frame is not what the protocol asks for.
    MalformedFrame,
    /// The frame is too long.
    FrameTooLarge,
    /// The handshake is not over yet.
    HandshakeRequired,
    /// A code that is not known here. It is not answered.
    Unknown,
}

/// An error frame. As an answer to a request it carries the request's number.
#[derive(Debug, Clone, PartialEq, Eq)]
pub struct ProtocolError {
    pub code: ErrorCode,
    /// For people. Nothing may depend on it.
    pub message: String,
}

/// What is said of a request that is not known.
pub open spec fn unsupported_text(kind: Seq<char>) -> Seq<char> {
    "本端不支持请求 `"@ + kind + "`"@
}

/// The name of an error code.
pub open spec fn code_text(code: ErrorCode) -> Seq<char> {
    match code {
        ErrorCode::VersionMismatch => "VersionMismatch"@,
        ErrorCode::UnsupportedRequest => "UnsupportedRequest"@,
        ErrorCode::MalformedFrame => "MalformedFrame"@,
        ErrorCode::FrameTooLarge => "FrameTooLarge"@,
        ErrorCode::HandshakeRequired => "HandshakeRequired"@,
        ErrorCode::Unknown => "Unknown"@,
    }
}

impl ErrorCode {
    /// The name of the code.
    pub fn name(self) -> (r: &'static str)
        ensures
            r@ == code_text(self),
    {
        match self {
            ErrorCode::VersionMismatch => "VersionMismatch",
            ErrorCode::UnsupportedRequest => "UnsupportedRequest",
            ErrorCode::MalformedFrame => "MalformedFrame",
            ErrorCode::FrameTooLarge => "FrameTooLarge",
            ErrorCode::HandshakeRequired => "HandshakeRequired",
            ErrorCode::Unknown => "Unknown",
        }
    }
}

impl ProtocolError {
    /// An error.
    pub fn new(code: ErrorCode, message: String) -> (r: Self)
        ensures
            r.code == code,
            r.message@ == message@,
    {
        ProtocolError { code, message }
    }

    /// The answer to a request that is not known.
    pub fn unsupported_request(kind: &str) -> (r: Self)
        ensures
            r.code == ErrorCode::UnsupportedRequest,
            r.message@ == unsupported_text(kind@),
    {
        let mut message = "本端不支持请求 `".to_owned();
        message.append(kind);
        message.append("`");
        ProtocolError::new(ErrorCode::UnsupportedRequest, message)
    }

    /// The error that tells of a mismatch.
    pub fn from(err: VersionMismatch) -> (r: Self)
        ensures
            r.code == ErrorCode::VersionMismatch,
            r.message@ == mismatch_text(err),
    {
        ProtocolError::new(ErrorCode::VersionMismatch, err.to_string())
    }

    /// The error in words.
    pub fn to_string(&self) -> (r: String)
        ensures
            r@ == code_text(self.code) + ": "@ + self.message@,
    {
        let mut r = self.code.name().to_owned();
        r.append(": ");
        r.append(self.message.as_str());
        r
    }
}

} // verus!
