//! Wire-level request and response types and the error-code taxonomy.

use vstd::prelude::*;

verus! {

/// Request body for the transcribe endpoint.
#[derive(Debug, Clone)]
pub struct TranscribeRequest {
    /// Base64-encoded audio payload.
    pub audio_base64: String,
    /// Container format tag; absent means "wav".
    pub format: Option<String>,
    /// Client's sample-rate hint; accepted but not used by decoding.
    pub sample_rate: Option<u32>,
    /// Whether to polish the transcript; accepted but has no effect.
    pub polish: Option<bool>,
}

/// Response body for a successful transcription.
#[derive(Debug, Clone)]
pub struct TranscribeResponse {
    pub success: bool,
    /// Raw transcript from the engine.
    pub raw_text: String,
    /// Always equal to `raw_text`: no post-processing is done.
    pub polished_text: String,
    /// Always "auto": no language detection is exposed.
    pub language: String,
    /// Wall-clock processing time in milliseconds.
    pub processing_time_ms: u64,
}

/// Response body for the status endpoint.
#[derive(Debug, Clone)]
pub struct StatusResponse {
    /// "ready" when the model is loaded, "loading" otherwise.
    pub status: String,
    pub model_loaded: bool,
    pub current_model: Option<String>,
    pub version: String,
}

/// Error response body: a human-readable message and a stable wire code.
#[derive(Debug, Clone)]
pub struct ErrorResponse {
    pub error: String,
    pub code: String,
}

/// The closed taxonomy of wire error codes.
#[derive(Debug, Clone, Copy, PartialEq, Eq, Structural)]
pub enum ErrorCode {
    Unauthorized,
    InvalidFormat,
    DecodeError,
    ModelNotLoaded,
    TranscribeError,
}

impl ErrorCode {
    /// The stable wire string of each code.
    pub open spec fn wire_spec(self) -> Seq<char> {
        match self {
            ErrorCode::Unauthorized => "UNAUTHORIZED"@,
            ErrorCode::InvalidFormat => "INVALID_FORMAT"@,
            ErrorCode::DecodeError => "DECODE_ERROR"@,
            ErrorCode::ModelNotLoaded => "MODEL_NOT_LOADED"@,
            ErrorCode::TranscribeError => "TRANSCRIBE_ERROR"@,
        }
    }

    /// The HTTP status under which each code is reported.
    pub open spec fn http_status_spec(self) -> int {
        match self {
            ErrorCode::Unauthorized => 401,
            ErrorCode::InvalidFormat => 400,
            ErrorCode::DecodeError => 400,
            ErrorCode::ModelNotLoaded => 503,
            ErrorCode::TranscribeError => 500,
        }
    }

    /// Total mapping from error kind to its wire string.
    pub fn wire_string(&self) -> (r: String)
        ensures
            r@ == self.wire_spec(),
    {
        match self {
            ErrorCode::Unauthorized => "UNAUTHORIZED".to_owned(),
            ErrorCode::InvalidFormat => "INVALID_FORMAT".to_owned(),
            ErrorCode::DecodeError => "DECODE_ERROR".to_owned(),
            ErrorCode::ModelNotLoaded => "MODEL_NOT_LOADED".to_owned(),
            ErrorCode::TranscribeError => "TRANSCRIBE_ERROR".to_owned(),
        }
    }

    /// Total mapping from error kind to its HTTP status.
    pub fn http_status(&self) -> (s: u16)
        ensures
            s as int == self.http_status_spec(),
    {
        match self {
            ErrorCode::Unauthorized => 401,
            ErrorCode::InvalidFormat => 400,
            ErrorCode::DecodeError => 400,
            ErrorCode::ModelNotLoaded => 503,
            ErrorCode::TranscribeError => 500,
        }
    }
}

} // verus!
