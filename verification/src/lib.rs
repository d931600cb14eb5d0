//! A local-network speech-transcription bridge: audio ingestion and
//! normalization (WAV container decoding and linear resampling to canonical
//! mono 16 kHz), bearer-token authentication, error-code mapping, and the
//! request/response protocol that wraps them.
//!
//! Audio samples are carried as Q31 fixed-point values: an `i64` holding the
//! scaled value `real_sample * 2^31`, so the real range `[-1.0, 1.0]` maps to
//! `-2^31 ..= 2^31`. Integer container samples of width `w` are scaled by
//! `2^(32-w)` exactly; IEEE 754 float samples are converted by integer
//! arithmetic on their bit pattern, truncating toward zero and saturating at
//! full scale.

pub mod audio_convert;
pub mod config;
pub mod handlers;
pub mod types;
