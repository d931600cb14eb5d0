//! Request handling: bearer-token verification and the pure
//! decision/response-building steps of the status and transcribe endpoints.
//!
//! The surrounding HTTP server hands these functions plain values (the
//! `Authorization` header, the request body, what the engine reported) and
//! sends back what they return.

use vstd::prelude::*;
use vstd::string::StrSliceExecFns;

verus! {

use crate::types::{ErrorCode, ErrorResponse, StatusResponse, TranscribeRequest, TranscribeResponse};
use crate::audio_convert::{
    ascii_lower, base64_decoded, convert_from_base64, normalized_of, samples_ok, q,
    wav_format_supported, wav_structure_ok, AudioConvertError, AudioConvertResult,
};

/// The token named by an `Authorization` header value: the remainder after a
/// literal "Bearer " prefix. An absent header or a missing prefix counts as
/// the empty token.
pub open spec fn bearer_token(h: Option<Seq<char>>) -> Seq<char> {
    match h {
        Option::None => Seq::<char>::empty(),
        Option::Some(s) => if s.len() >= 7 && s.subrange(0, 7) == "Bearer "@ {
            s.subrange(7, s.len() as int)
        } else {
            Seq::<char>::empty()
        },
    }
}

/// The character view of an optional header value.
pub open spec fn header_chars(h: Option<&str>) -> Option<Seq<char>> {
    match h {
        Option::None => Option::None,
        Option::Some(s) => Option::Some(s@),
    }
}

/// Checks the bearer credential against the expected token by exact string
/// equality. Succeeds exactly when the token carried by the header equals the
/// expected one; any mismatch is reported as the same unauthorized error,
/// which does not reveal whether the header was missing or wrong.
pub fn verify_token(auth_header: Option<&str>, expected_token: &str) -> (r: Result<
    (),
    ErrorResponse,
>)
    ensures
        r is Ok <==> bearer_token(header_chars(auth_header)) == expected_token@,
        r matches Err(e) ==> e.code@ == "UNAUTHORIZED"@ && e.error@ == "Invalid token"@,
{
    let token: String = match auth_header {
        Option::None => String::new(),
        Option::Some(h) => {
            let n = h.unicode_len();
            if n >= 7 {
                let p = h.substring_char(0, 7);
                let pw: String = p.to_owned();
                let bw: String = "Bearer ".to_owned();
                if pw == bw {
                    h.substring_char(7, n).to_owned()
                } else {
                    String::new()
                }
            } else {
                String::new()
            }
        },
    };
    let exp: String = expected_token.to_owned();
    if token == exp {
        Ok(())
    } else {
        Err(ErrorResponse {
            error: "Invalid token".to_owned(),
            code: ErrorCode::Unauthorized.wire_string(),
        })
    }
}

/// Builds the status reply: "ready" exactly when the model is loaded,
/// "loading" otherwise, echoing the model name and version as given.
pub fn status_response(model_loaded: bool, current_model: Option<String>, version: String) -> (r:
    StatusResponse)
    ensures
        r.status@ == if model_loaded {
            "ready"@
        } else {
            "loading"@
        },
        r.model_loaded == model_loaded,
        r.current_model == current_model,
        r.version == version,
{
    let status: String = if model_loaded {
        "ready".to_owned()
    } else {
        "loading".to_owned()
    };
    StatusResponse { status, model_loaded, current_model, version }
}

/// The 503 reply sent when the transcription engine cannot serve the request:
/// either the engine collaborator is absent altogether, or it reports that no
/// model is loaded.
pub fn engine_unavailable_response(service_present: bool) -> (r: (u16, ErrorResponse))
    ensures
        r.0 == 503,
        r.1.code@ == "MODEL_NOT_LOADED"@,
        r.1.error@ == if service_present {
            "Model not loaded"@
        } else {
            "Transcription service not available"@
        },
{
    let msg: String = if service_present {
        "Model not loaded".to_owned()
    } else {
        "Transcription service not available".to_owned()
    };
    (503, ErrorResponse { error: msg, code: ErrorCode::ModelNotLoaded.wire_string() })
}

/// The format tag a transcribe request asks for; absent means "wav".
pub open spec fn requested_format(f: Option<String>) -> Seq<char> {
    match f {
        Option::None => "wav"@,
        Option::Some(s) => s@,
    }
}

/// What the authentication and normalization steps of a transcribe request
/// return: a 401 on a bad credential before anything else; then a 400 with
/// code DECODE_ERROR when the payload is not base64, or INVALID_FORMAT when
/// the decoded bytes fail container conversion; otherwise the canonical
/// audio.
pub open spec fn prepare_post(
    h: Option<Seq<char>>,
    expected: Seq<char>,
    audio: Seq<char>,
    format: Seq<char>,
    r: Result<AudioConvertResult, (u16, ErrorResponse)>,
) -> bool {
    if bearer_token(h) != expected {
        r matches Err(p) && p.0 == 401 && p.1.code@ == "UNAUTHORIZED"@ && p.1.error@
            == "Invalid token"@
    } else if base64_decoded(audio) is None {
        r matches Err(p) && p.0 == 400 && p.1.code@ == "DECODE_ERROR"@
    } else {
        let bs = base64_decoded(audio).unwrap();
        &&& (r is Ok <==> ascii_lower(format) == "wav"@ && wav_structure_ok(bs)
            && wav_format_supported(bs))
        &&& (r matches Ok(res) ==> q(res.samples@) == normalized_of(bs) && res.duration_ms as int
            == res.samples@.len() * 1000 / 16000 && samples_ok(res.samples@))
        &&& (r matches Err(p) ==> p.0 == 400 && p.1.code@ == "INVALID_FORMAT"@)
        &&& (ascii_lower(format) != "wav"@ && ascii_lower(format) != "ogg"@ ==> (r matches Err(p)
            && p.1.error@ == "Unsupported format: "@ + format))
        &&& (ascii_lower(format) == "ogg"@ ==> (r matches Err(p) && p.1.error@
            == "Unsupported format: ogg (not yet implemented)"@))
    }
}

/// Authenticates a transcribe request and normalizes its payload: verifies
/// the bearer token, resolves the format tag (default "wav"), decodes the
/// base64 payload and converts it to canonical audio, mapping each failure
/// to its HTTP status and wire code.
pub fn prepare_transcribe(
    auth_header: Option<&str>,
    expected_token: &str,
    request: &TranscribeRequest,
) -> (r: Result<AudioConvertResult, (u16, ErrorResponse)>)
    requires
        request.audio_base64@.len() * 16000 <= usize::MAX,
        request.audio_base64@.len() * 16000 + 0x1_0000_0000 <= u64::MAX,
    ensures
        prepare_post(
            header_chars(auth_header),
            expected_token@,
            request.audio_base64@,
            requested_format(request.format),
            r,
        ),
{
    proof {
        reveal_strlit("wav");
        reveal_strlit("ogg");
        assert("wav"@[0] == 'w');
        assert("ogg"@[0] == 'o');
        assert("wav"@ != "ogg"@);
    }
    if let Err(e) = verify_token(auth_header, expected_token) {
        return Err((401, e));
    }
    let format: &str = match &request.format {
        Option::Some(f) => f.as_str(),
        Option::None => "wav",
    };
    match convert_from_base64(request.audio_base64.as_str(), format) {
        Ok(res) => Ok(res),
        Err(e) => {
            proof {
                reveal_strlit("Unsupported format: ");
                reveal_strlit("ogg (not yet implemented)");
                reveal_strlit("Unsupported format: ogg (not yet implemented)");
                assert("Unsupported format: "@ + "ogg (not yet implemented)"@
                    =~= "Unsupported format: ogg (not yet implemented)"@);
            }
            let code = match &e {
                AudioConvertError::Base64DecodeError(_) => ErrorCode::DecodeError,
                _ => ErrorCode::InvalidFormat,
            };
            Err((400, ErrorResponse { error: e.message(), code: code.wire_string() }))
        },
    }
}

/// Reply to a transcribe request.
#[derive(Debug, Clone)]
pub enum TranscribeReply {
    Success(TranscribeResponse),
    Failure(ErrorResponse),
}

/// Turns the engine's outcome into the wire reply: a successful transcript is
/// echoed unchanged as both raw and polished text with language "auto" and
/// status 200; an engine failure becomes a 500 with code TRANSCRIBE_ERROR
/// carrying the engine's message.
pub fn finish_transcribe(outcome: Result<String, String>, processing_time_ms: u64) -> (r: (
    u16,
    TranscribeReply,
))
    ensures
        outcome matches Ok(text) ==> {
            &&& r.0 == 200
            &&& r.1 matches TranscribeReply::Success(resp)
            &&& resp.success
            &&& resp.raw_text@ == text@
            &&& resp.polished_text@ == text@
            &&& resp.language@ == "auto"@
            &&& resp.processing_time_ms == processing_time_ms
        },
        outcome matches Err(msg) ==> {
            &&& r.0 == 500
            &&& r.1 matches TranscribeReply::Failure(e)
            &&& e.code@ == "TRANSCRIBE_ERROR"@
            &&& e.error@ == msg@
        },
{
    match outcome {
        Ok(text) => {
            let polished: String = text.clone();
            (
                200,
                TranscribeReply::Success(TranscribeResponse {
                    success: true,
                    raw_text: text,
                    polished_text: polished,
                    language: "auto".to_owned(),
                    processing_time_ms,
                }),
            )
        },
        Err(msg) => (
            500,
            TranscribeReply::Failure(ErrorResponse {
                error: msg,
                code: ErrorCode::TranscribeError.wire_string(),
            }),
        ),
    }
}

} // verus!
