use base64::Engine;
use saytype::handlers::{
    engine_unavailable_response, finish_transcribe, prepare_transcribe, status_response,
    verify_token, TranscribeReply,
};
use saytype::types::{ErrorCode, TranscribeRequest};

/// A well-formed mono 16 kHz WAV payload, base64-encoded.
fn wav_payload_base64() -> String {
    let mut bytes: Vec<u8> = Vec::new();
    bytes.extend_from_slice(b"RIFF");
    bytes.extend_from_slice(&(4 + 8 + 16 + 8 + 4u32).to_le_bytes());
    bytes.extend_from_slice(b"WAVE");
    bytes.extend_from_slice(b"fmt ");
    bytes.extend_from_slice(&16u32.to_le_bytes());
    bytes.extend_from_slice(&1u16.to_le_bytes()); // integer PCM
    bytes.extend_from_slice(&1u16.to_le_bytes()); // mono
    bytes.extend_from_slice(&16000u32.to_le_bytes());
    bytes.extend_from_slice(&32000u32.to_le_bytes());
    bytes.extend_from_slice(&2u16.to_le_bytes());
    bytes.extend_from_slice(&16u16.to_le_bytes());
    bytes.extend_from_slice(b"data");
    bytes.extend_from_slice(&4u32.to_le_bytes());
    bytes.extend_from_slice(&100i16.to_le_bytes());
    bytes.extend_from_slice(&(-100i16).to_le_bytes());
    base64::engine::general_purpose::STANDARD.encode(&bytes)
}

fn request(audio_base64: String) -> TranscribeRequest {
    TranscribeRequest {
        audio_base64,
        format: None,
        sample_rate: None,
        polish: None,
    }
}

#[test]
fn test_verify_token_ok() {
    let header = "Bearer t1";
    assert!(verify_token(Some(header), "t1").is_ok());
}

#[test]
fn test_verify_token_wrong() {
    let header = "Bearer t1";
    let err = verify_token(Some(header), "t2").unwrap_err();
    assert_eq!(err.code, "UNAUTHORIZED");
    assert_eq!(err.error, "Invalid token");
}

#[test]
fn test_verify_token_missing_header() {
    let err = verify_token(None, "t1").unwrap_err();
    assert_eq!(err.code, "UNAUTHORIZED");
}

#[test]
fn test_verify_token_missing_prefix() {
    assert!(verify_token(Some("t1"), "t1").is_err());
}

#[test]
fn test_status_response_ready() {
    let r = status_response(true, Some("base".to_string()), "1.2.3".to_string());
    assert_eq!(r.status, "ready");
    assert!(r.model_loaded);
    assert_eq!(r.current_model.as_deref(), Some("base"));
    assert_eq!(r.version, "1.2.3");
}

#[test]
fn test_status_response_loading() {
    let r = status_response(false, None, "1.2.3".to_string());
    assert_eq!(r.status, "loading");
    assert!(!r.model_loaded);
    assert_eq!(r.current_model, None);
}

#[test]
fn test_transcribe_success_reply() {
    let (status, reply) = finish_transcribe(Ok("hello".to_string()), 42);
    assert_eq!(status, 200);
    match reply {
        TranscribeReply::Success(resp) => {
            assert!(resp.success);
            assert_eq!(resp.raw_text, "hello");
            assert_eq!(resp.polished_text, "hello");
            assert_eq!(resp.language, "auto");
            assert_eq!(resp.processing_time_ms, 42);
        }
        TranscribeReply::Failure(_) => panic!("expected success"),
    }
}

#[test]
fn test_transcribe_engine_failure_reply() {
    let (status, reply) = finish_transcribe(Err("inference failed".to_string()), 1);
    assert_eq!(status, 500);
    match reply {
        TranscribeReply::Failure(e) => {
            assert_eq!(e.code, "TRANSCRIBE_ERROR");
            assert_eq!(e.error, "inference failed");
        }
        TranscribeReply::Success(_) => panic!("expected failure"),
    }
}

#[test]
fn test_engine_unavailable() {
    let (status, e) = engine_unavailable_response(false);
    assert_eq!(status, 503);
    assert_eq!(e.code, "MODEL_NOT_LOADED");
    assert_eq!(e.error, "Transcription service not available");
}

#[test]
fn test_model_not_loaded() {
    let (status, e) = engine_unavailable_response(true);
    assert_eq!(status, 503);
    assert_eq!(e.code, "MODEL_NOT_LOADED");
    assert_eq!(e.error, "Model not loaded");
}

#[test]
fn test_transcribe_pipeline_success() {
    // Valid token and well-formed WAV: normalization succeeds, and a
    // transcript of "hello" comes back as a 200 success reply.
    let req = request(wav_payload_base64());
    let audio = prepare_transcribe(Some("Bearer tok"), "tok", &req).unwrap();
    assert_eq!(audio.samples, vec![100 * 65536, -100 * 65536]);
    let (status, reply) = finish_transcribe(Ok("hello".to_string()), 7);
    assert_eq!(status, 200);
    assert!(matches!(reply, TranscribeReply::Success(_)));
}

#[test]
fn test_transcribe_pipeline_model_not_loaded() {
    // Valid token and payload, but the engine reports no model: 503.
    let req = request(wav_payload_base64());
    assert!(prepare_transcribe(Some("Bearer tok"), "tok", &req).is_ok());
    let (status, e) = engine_unavailable_response(true);
    assert_eq!(status, 503);
    assert_eq!(e.code, "MODEL_NOT_LOADED");
}

#[test]
fn test_transcribe_unauthorized_short_circuits() {
    let req = request(wav_payload_base64());
    let (status, e) = prepare_transcribe(Some("Bearer bad"), "tok", &req).unwrap_err();
    assert_eq!(status, 401);
    assert_eq!(e.code, "UNAUTHORIZED");
}

#[test]
fn test_transcribe_bad_base64_maps_to_decode_error() {
    let req = request("not-valid-base64!!!".to_string());
    let (status, e) = prepare_transcribe(Some("Bearer tok"), "tok", &req).unwrap_err();
    assert_eq!(status, 400);
    assert_eq!(e.code, "DECODE_ERROR");
}

#[test]
fn test_transcribe_bad_container_maps_to_invalid_format() {
    let encoded = base64::engine::general_purpose::STANDARD.encode([0u8, 1, 2, 3]);
    let req = request(encoded);
    let (status, e) = prepare_transcribe(Some("Bearer tok"), "tok", &req).unwrap_err();
    assert_eq!(status, 400);
    assert_eq!(e.code, "INVALID_FORMAT");
}

#[test]
fn test_transcribe_unknown_format_maps_to_invalid_format() {
    let encoded = base64::engine::general_purpose::STANDARD.encode([0u8]);
    let mut req = request(encoded);
    req.format = Some("mp3".to_string());
    let (status, e) = prepare_transcribe(Some("Bearer tok"), "tok", &req).unwrap_err();
    assert_eq!(status, 400);
    assert_eq!(e.code, "INVALID_FORMAT");
}

#[test]
fn test_error_code_mapping() {
    assert_eq!(ErrorCode::Unauthorized.wire_string(), "UNAUTHORIZED");
    assert_eq!(ErrorCode::InvalidFormat.wire_string(), "INVALID_FORMAT");
    assert_eq!(ErrorCode::DecodeError.wire_string(), "DECODE_ERROR");
    assert_eq!(ErrorCode::ModelNotLoaded.wire_string(), "MODEL_NOT_LOADED");
    assert_eq!(ErrorCode::TranscribeError.wire_string(), "TRANSCRIBE_ERROR");
    assert_eq!(ErrorCode::Unauthorized.http_status(), 401);
    assert_eq!(ErrorCode::InvalidFormat.http_status(), 400);
    assert_eq!(ErrorCode::DecodeError.http_status(), 400);
    assert_eq!(ErrorCode::ModelNotLoaded.http_status(), 503);
    assert_eq!(ErrorCode::TranscribeError.http_status(), 500);
}
