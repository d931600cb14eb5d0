use base64::Engine;
use saytype::audio_convert::{
    convert_from_base64, convert_from_bytes, resample, AudioConvertError,
};

/// Q31 full scale: 2^31.
const SCALE: i64 = 0x8000_0000;

/// Builds a minimal WAV container: RIFF preamble, a 16-byte fmt chunk, and a
/// data chunk holding the given payload.
fn wav_bytes(tag: u16, channels: u16, rate: u32, bits: u16, data: &[u8]) -> Vec<u8> {
    let mut out: Vec<u8> = Vec::new();
    out.extend_from_slice(b"RIFF");
    let riff_size = 4 + 8 + 16 + 8 + data.len() as u32;
    out.extend_from_slice(&riff_size.to_le_bytes());
    out.extend_from_slice(b"WAVE");
    out.extend_from_slice(b"fmt ");
    out.extend_from_slice(&16u32.to_le_bytes());
    out.extend_from_slice(&tag.to_le_bytes());
    out.extend_from_slice(&channels.to_le_bytes());
    out.extend_from_slice(&rate.to_le_bytes());
    let block_align = channels as u32 * (bits as u32 / 8);
    out.extend_from_slice(&(rate * block_align).to_le_bytes());
    out.extend_from_slice(&(block_align as u16).to_le_bytes());
    out.extend_from_slice(&bits.to_le_bytes());
    out.extend_from_slice(b"data");
    out.extend_from_slice(&(data.len() as u32).to_le_bytes());
    out.extend_from_slice(data);
    out
}

fn pcm16(samples: &[i16]) -> Vec<u8> {
    let mut out: Vec<u8> = Vec::new();
    for s in samples {
        out.extend_from_slice(&s.to_le_bytes());
    }
    out
}

#[test]
fn test_unsupported_format() {
    let result = convert_from_bytes(&vec![], "mp3");
    assert!(matches!(result, Err(AudioConvertError::UnsupportedFormat(_))));
}

#[test]
fn test_ogg_not_implemented() {
    let result = convert_from_bytes(&vec![], "ogg");
    assert!(matches!(result, Err(AudioConvertError::UnsupportedFormat(_))));
}

#[test]
fn test_resample() {
    // 48kHz -> 16kHz (3:1 ratio)
    let input: Vec<i64> = (0..48)
        .map(|i| (i as f64 / 48.0 * SCALE as f64) as i64)
        .collect();
    let output = resample(&input, 48000, 16000);
    assert_eq!(output.len(), 16);
}

#[test]
fn test_resample_values() {
    let input: Vec<i64> = vec![0, SCALE / 2, SCALE, SCALE / 2, 0];
    let output = resample(&input, 48000, 16000);
    for sample in &output {
        assert!(*sample >= 0 && *sample <= SCALE);
    }
}

#[test]
fn test_invalid_wav_data() {
    let result = convert_from_bytes(&vec![0, 1, 2, 3], "wav");
    assert!(matches!(result, Err(AudioConvertError::WavDecodeError(_))));
}

#[test]
fn test_invalid_base64() {
    let result = convert_from_base64("not-valid-base64!!!", "wav");
    assert!(matches!(result, Err(AudioConvertError::Base64DecodeError(_))));
}

#[test]
fn test_resample_identity() {
    let input: Vec<i64> = vec![5, -7, SCALE, -SCALE, 0];
    let output = resample(&input, 44100, 44100);
    assert_eq!(output, input);
}

#[test]
fn test_resample_downsample_exact() {
    // 48k -> 16k picks every third sample when positions land exactly.
    let input: Vec<i64> = vec![0, 300, 600, 900, 1200, 1500];
    let output = resample(&input, 48000, 16000);
    assert_eq!(output, vec![0, 900]);
}

#[test]
fn test_resample_upsample_interpolates() {
    let input: Vec<i64> = vec![0, 300];
    let output = resample(&input, 16000, 48000);
    assert_eq!(output, vec![0, 100, 200, 300, 300, 300]);
}

#[test]
fn test_resample_length_formula() {
    // ceil(len * to / from) for a ratio that does not divide evenly.
    let input: Vec<i64> = vec![0; 10];
    let output = resample(&input, 44100, 16000);
    // ceil(10 * 16000 / 44100) = ceil(3.62...) = 4
    assert_eq!(output.len(), 4);
}

#[test]
fn test_decode_wav_16bit_mono() {
    let bytes = wav_bytes(1, 1, 16000, 16, &pcm16(&[16384, -16384, 0]));
    let result = convert_from_bytes(&bytes, "wav").unwrap();
    assert_eq!(result.samples, vec![16384 * 65536, -16384 * 65536, 0]);
    assert_eq!(result.duration_ms, 0);
}

#[test]
fn test_decode_wav_case_insensitive_tag() {
    let bytes = wav_bytes(1, 1, 16000, 16, &pcm16(&[100]));
    let result = convert_from_bytes(&bytes, "WAV").unwrap();
    assert_eq!(result.samples, vec![100 * 65536]);
}

#[test]
fn test_decode_wav_stereo_downmix() {
    // Two frames of (left, right); each becomes the mean of its frame.
    let bytes = wav_bytes(1, 2, 16000, 16, &pcm16(&[100, 200, -100, -300]));
    let result = convert_from_bytes(&bytes, "wav").unwrap();
    assert_eq!(result.samples, vec![150 * 65536, -200 * 65536]);
}

#[test]
fn test_decode_wav_8bit() {
    // 8-bit samples are unsigned around 128.
    let bytes = wav_bytes(1, 1, 16000, 8, &[128, 255, 0]);
    let result = convert_from_bytes(&bytes, "wav").unwrap();
    assert_eq!(
        result.samples,
        vec![0, 127 * 0x100_0000, -128 * 0x100_0000]
    );
}

#[test]
fn test_decode_wav_float_samples() {
    // 0.5f32 scales to exactly 2^30; -1.0f32 saturates at -2^31.
    let mut data: Vec<u8> = Vec::new();
    data.extend_from_slice(&0.5f32.to_bits().to_le_bytes());
    data.extend_from_slice(&(-1.0f32).to_bits().to_le_bytes());
    let bytes = wav_bytes(3, 1, 16000, 32, &data);
    let result = convert_from_bytes(&bytes, "wav").unwrap();
    assert_eq!(result.samples, vec![SCALE / 2, -SCALE]);
}

#[test]
fn test_decode_wav_resamples_to_16k() {
    // 32 samples at 32 kHz become 16 samples at 16 kHz; 16 samples last 1 ms.
    let samples: Vec<i16> = (0..32).map(|i| i * 100).collect();
    let bytes = wav_bytes(1, 1, 32000, 16, &pcm16(&samples));
    let result = convert_from_bytes(&bytes, "wav").unwrap();
    assert_eq!(result.samples.len(), 16);
    assert_eq!(result.duration_ms, 1);
    // Exact positions: output i reads source 2i.
    assert_eq!(result.samples[3], 600 * 65536);
}

#[test]
fn test_decode_wav_duration_floor() {
    // 20 samples at 16 kHz: floor(20 * 1000 / 16000) = 1 ms.
    let samples: Vec<i16> = vec![0; 20];
    let bytes = wav_bytes(1, 1, 16000, 16, &pcm16(&samples));
    let result = convert_from_bytes(&bytes, "wav").unwrap();
    assert_eq!(result.samples.len(), 20);
    assert_eq!(result.duration_ms, 1);
}

#[test]
fn test_decode_wav_drops_trailing_partial_sample() {
    let mut data = pcm16(&[7]);
    data.push(0xAB); // one stray byte, not a complete sample
    let bytes = wav_bytes(1, 1, 16000, 16, &data);
    let result = convert_from_bytes(&bytes, "wav").unwrap();
    assert_eq!(result.samples, vec![7 * 65536]);
}

#[test]
fn test_decode_wav_unsupported_bit_depth() {
    // An unsupported encoding is still a container decode failure.
    let bytes = wav_bytes(1, 1, 16000, 12, &[0, 0]);
    let result = convert_from_bytes(&bytes, "wav");
    assert!(matches!(result, Err(AudioConvertError::WavDecodeError(_))));
}

#[test]
fn test_unsupported_format_message() {
    let err = convert_from_bytes(&vec![], "mp3").unwrap_err();
    assert_eq!(err.message(), "Unsupported format: mp3");
    let err = convert_from_bytes(&vec![], "ogg").unwrap_err();
    assert_eq!(err.message(), "Unsupported format: ogg (not yet implemented)");
}

#[test]
fn test_convert_from_base64_roundtrip() {
    let bytes = wav_bytes(1, 1, 16000, 16, &pcm16(&[321]));
    let encoded = base64::engine::general_purpose::STANDARD.encode(&bytes);
    let result = convert_from_base64(&encoded, "wav").unwrap();
    assert_eq!(result.samples, vec![321 * 65536]);
}
