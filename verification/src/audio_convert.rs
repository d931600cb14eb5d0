//! Audio ingestion and normalization: decoding the raw-waveform (WAV)
//! container, down-mixing to mono, and linear resampling to the canonical
//! 16 kHz rate.
//!
//! Samples are Q31 fixed-point: an `i64` holding `real_value * 2^31`, so a
//! real sample in `[-1.0, 1.0]` lies in `-2^31 ..= 2^31`. Integer container
//! samples of width `w` bits scale exactly by `2^(32-w)`; float samples are
//! converted from their IEEE 754 bit pattern by integer arithmetic,
//! truncating toward zero and saturating at full scale. Where an average or
//! an interpolation divides, the quotient rounds toward minus infinity.

use vstd::prelude::*;
use base64::Engine;
use vstd::arithmetic::div_mod::{
    lemma_fundamental_div_mod, lemma_fundamental_div_mod_converse, lemma_mod_bound,
    lemma_div_is_ordered, lemma_div_multiples_vanish, lemma_div_nonincreasing,
};
use vstd::arithmetic::mul::{lemma_mul_inequality, lemma_mul_is_commutative};

verus! {

/// Full scale of a Q31 sample: `2^31`.
pub const SAMPLE_SCALE: i64 = 0x8000_0000;

/// The canonical output rate in Hz.
pub const TARGET_RATE: u32 = 16000;

/// A Q31 sample within full scale.
pub open spec fn sample_ok(s: i64) -> bool {
    -SAMPLE_SCALE <= s <= SAMPLE_SCALE
}

/// All samples of a buffer within full scale.
pub open spec fn samples_ok(s: Seq<i64>) -> bool {
    forall|i: int| 0 <= i < s.len() ==> sample_ok(#[trigger] s[i])
}

/// `2^k`.
pub open spec fn p2(k: nat) -> int
    decreases k,
{
    if k == 0 {
        1
    } else {
        2 * p2((k - 1) as nat)
    }
}

proof fn lemma_p2_pos(k: nat)
    ensures
        p2(k) >= 1,
    decreases k,
{
    if k > 0 {
        lemma_p2_pos((k - 1) as nat);
    }
}

proof fn lemma_p2_monotone(a: nat, b: nat)
    requires
        a <= b,
    ensures
        p2(a) <= p2(b),
    decreases b,
{
    if a < b {
        lemma_p2_monotone(a, (b - 1) as nat);
        lemma_p2_pos((b - 1) as nat);
    }
}

/// `2^k` for small `k`, executably.
fn pow2_u64(k: u64) -> (r: u64)
    requires
        k <= 23,
    ensures
        r as int == p2(k as nat),
        1 <= r <= 0x80_0000,
{
    proof {
        reveal_with_fuel(p2, 24);
        assert(p2(23) == 0x80_0000);
    }
    let mut r: u64 = 1;
    let mut j: u64 = 0;
    while j < k
        invariant
            j <= k,
            k <= 23,
            r as int == p2(j as nat),
            1 <= r <= 0x80_0000,
        decreases k - j,
    {
        proof {
            reveal_with_fuel(p2, 24);
            assert(p2(23) == 0x80_0000);
            assert(p2((j + 1) as nat) == 2 * p2(j as nat));
            lemma_p2_monotone((j + 1) as nat, 23);
        }
        r = r * 2;
        j = j + 1;
    }
    r
}

/// Little-endian 16-bit value at byte offset `i`.
pub open spec fn le16(b: Seq<u8>, i: int) -> int {
    b[i] + 256 * b[i + 1]
}

/// Little-endian 24-bit value at byte offset `i`.
pub open spec fn le24(b: Seq<u8>, i: int) -> int {
    b[i] + 256 * b[i + 1] + 65536 * b[i + 2]
}

/// Little-endian 32-bit value at byte offset `i`.
pub open spec fn le32(b: Seq<u8>, i: int) -> int {
    b[i] + 256 * b[i + 1] + 65536 * b[i + 2] + 16777216 * b[i + 3]
}

fn read_u16(b: &Vec<u8>, i: usize) -> (r: u16)
    requires
        i + 2 <= b@.len(),
    ensures
        r as int == le16(b@, i as int),
{
    let _n = b.len();
    b[i] as u16 + (b[i + 1] as u16) * 256
}

fn read_u32(b: &Vec<u8>, i: usize) -> (r: u32)
    requires
        i + 4 <= b@.len(),
    ensures
        r as int == le32(b@, i as int),
{
    let _n = b.len();
    b[i] as u32 + (b[i + 1] as u32) * 256 + (b[i + 2] as u32) * 65536 + (b[i + 3] as u32)
        * 16777216
}

/// The Q31 value of an IEEE 754 single-precision bit pattern `w`, by integer
/// arithmetic: zero, subnormals, and anything of magnitude below `2^-31`
/// become 0, as does NaN; values of magnitude 1 or more (infinity included)
/// saturate at full scale; the rest truncate toward zero.
pub open spec fn q31_of_f32_bits(w: int) -> int {
    let sign = w / 0x8000_0000;
    let e = (w / 0x80_0000) % 256;
    let m = w % 0x80_0000;
    let mag = if e == 0 {
        0
    } else if e == 255 {
        if m == 0 {
            0x8000_0000
        } else {
            0
        }
    } else if e >= 127 {
        0x8000_0000
    } else if e >= 119 {
        (0x80_0000 + m) * p2((e - 119) as nat)
    } else if e >= 96 {
        (0x80_0000 + m) / p2((119 - e) as nat)
    } else {
        0
    };
    if sign == 1 {
        -mag
    } else {
        mag
    }
}

fn f32_bits_to_q31(w: u32) -> (r: i64)
    ensures
        r as int == q31_of_f32_bits(w as int),
        sample_ok(r),
{
    let wi = w as u64;
    let sign = wi / 0x8000_0000;
    let e = (wi / 0x80_0000) % 256;
    let m = wi % 0x80_0000;
    let mag: u64 = if e == 0 {
        0
    } else if e == 255 {
        if m == 0 {
            0x8000_0000
        } else {
            0
        }
    } else if e >= 127 {
        0x8000_0000
    } else if e >= 119 {
        let pw = pow2_u64(e - 119);
        proof {
            lemma_p2_monotone((e - 119) as nat, 7);
            reveal_with_fuel(p2, 8);
            assert((0x80_0000 + m) * pw <= 0xFF_FFFF * 128) by (nonlinear_arith)
                requires
                    m <= 0x7F_FFFF,
                    0 <= pw <= 128,
            ;
        }
        (0x80_0000 + m) * pw
    } else if e >= 96 {
        let pw = pow2_u64(119 - e);
        proof {
            lemma_div_nonincreasing((0x80_0000 + m) as int, pw as int);
        }
        (0x80_0000 + m) / pw
    } else {
        0
    };
    if sign == 1 {
        -(mag as i64)
    } else {
        mag as i64
    }
}

/// The Q31 value of the container sample stored at byte offset `off`:
/// unsigned 8-bit samples are offset by 128, wider integer samples are
/// little-endian two's complement, and 32-bit float samples go through
/// `q31_of_f32_bits`; each is scaled to Q31 exactly.
pub open spec fn wav_sample_q31(b: Seq<u8>, off: int, bits: int, is_float: bool) -> int {
    if is_float {
        q31_of_f32_bits(le32(b, off))
    } else if bits == 8 {
        (b[off] - 128) * 0x100_0000
    } else if bits == 16 {
        let v = le16(b, off);
        (if v >= 0x8000 {
            v - 0x1_0000
        } else {
            v
        }) * 0x1_0000
    } else if bits == 24 {
        let v = le24(b, off);
        (if v >= 0x80_0000 {
            v - 0x100_0000
        } else {
            v
        }) * 0x100
    } else {
        let v = le32(b, off);
        if v >= 0x8000_0000 {
            v - 0x1_0000_0000
        } else {
            v
        }
    }
}

/// Floor division of a wide numerator by a positive divisor.
fn div_floor_i128(n: i128, d: u64) -> (q: i64)
    requires
        1 <= d,
        i128::MIN < n,
        i64::MIN <= n as int / d as int <= i64::MAX,
    ensures
        q as int == n as int / d as int,
{
    if n >= 0 {
        let un: u128 = n as u128;
        let q128: u128 = un / (d as u128);
        q128 as i64
    } else {
        let m: u128 = (-n) as u128;
        let dd: u128 = d as u128;
        let qq: u128 = (m + dd - 1) / dd;
        proof {
            lemma_div_neg_ceil(m as int, d as int);
        }
        let qi: i128 = -(qq as i128);
        qi as i64
    }
}

/// Floor division by `d` of a negative number is the negated ceiling
/// division of its magnitude.
proof fn lemma_div_neg_ceil(m: int, d: int)
    requires
        1 <= m,
        1 <= d,
    ensures
        (-m) / d == -((m + d - 1) / d),
        (m + d - 1) / d >= 1,
{
    let p = (m + d - 1) / d;
    let r = (m + d - 1) % d;
    lemma_fundamental_div_mod(m + d - 1, d);
    lemma_mod_bound(m + d - 1, d);
    assert(d * p == m + d - 1 - r);
    assert(-m == d * (-p) + (d - 1 - r)) by (nonlinear_arith)
        requires
            d * p == m + d - 1 - r,
    ;
    lemma_fundamental_div_mod_converse(-m, d, -p, d - 1 - r);
    if p < 1 {
        assert(d * p <= 0) by (nonlinear_arith)
            requires
                p <= 0,
                d >= 1,
        ;
    }
}

/// A quotient of a total bounded by `lo*cnt` and `hi*cnt` lies in `[lo, hi]`.
proof fn lemma_avg_in_range(total: int, cnt: int, lo: int, hi: int)
    requires
        1 <= cnt,
        lo * cnt <= total,
        total <= hi * cnt,
    ensures
        lo <= total / cnt <= hi,
{
    lemma_div_is_ordered(lo * cnt, total, cnt);
    lemma_div_is_ordered(total, hi * cnt, cnt);
    lemma_mul_is_commutative(lo, cnt);
    lemma_mul_is_commutative(hi, cnt);
    lemma_div_multiples_vanish(lo, cnt);
    lemma_div_multiples_vanish(hi, cnt);
}

/// The mathematical contents of a sample buffer.
pub open spec fn q(s: Seq<i64>) -> Seq<int> {
    s.map_values(|x: i64| x as int)
}

/// The number of output samples when resampling `len` samples: the rounded-up
/// quotient `ceil(len * to / from)`.
pub open spec fn resampled_len(len: int, from: int, to: int) -> int {
    (len * to + from - 1) / from
}

/// The value of output sample `i` of linear resampling: the source position
/// is `i * from / to`; the sample is interpolated between the two bracketing
/// source samples by the fractional part, carried exactly as the remainder
/// over `to`. Past the penultimate source sample the last sample is held; an
/// out-of-range position yields silence.
pub open spec fn resampled_value(s: Seq<int>, from: int, to: int, i: int) -> int {
    let num = i * from;
    let idx = num / to;
    let rem = num % to;
    if idx + 1 < s.len() {
        (s[idx] * (to - rem) + s[idx + 1] * rem) / to
    } else if idx < s.len() {
        s[idx]
    } else {
        0
    }
}

/// The whole output of linear resampling.
pub open spec fn resampled_seq(s: Seq<int>, from: int, to: int) -> Seq<int> {
    Seq::new(
        resampled_len(s.len() as int, from, to) as nat,
        |i: int| resampled_value(s, from, to, i),
    )
}

/// Basic facts about the rounded-up quotient `q = (total + d - 1) / d`:
/// `q*d` reaches `total`, and `(q-1)*d` does not.
proof fn lemma_ceil_div(total: int, d: int)
    requires
        0 <= total,
        1 <= d,
    ensures
        ((total + d - 1) / d) * d >= total,
        ((total + d - 1) / d - 1) * d < total,
        0 <= (total + d - 1) / d <= total,
{
    let q = (total + d - 1) / d;
    let r = (total + d - 1) % d;
    lemma_fundamental_div_mod(total + d - 1, d);
    lemma_mod_bound(total + d - 1, d);
    assert(q * d == total + d - 1 - r) by (nonlinear_arith)
        requires
            total + d - 1 == d * q + r,
    ;
    assert((q - 1) * d == q * d - d) by (nonlinear_arith);
    if q < 0 {
        assert(q * d <= -d) by (nonlinear_arith)
            requires
                q <= -1,
                d >= 1,
        ;
    }
    if total == 0 {
        lemma_fundamental_div_mod_converse(d - 1, d, 0, d - 1);
    } else if q >= total + 1 {
        assert(q * d >= (total + 1) * d) by (nonlinear_arith)
            requires
                q >= total + 1,
                d >= 1,
        ;
        assert((total + 1) * d == total * d + d) by (nonlinear_arith);
        assert(total * d >= total) by (nonlinear_arith)
            requires
                total >= 1,
                d >= 1,
        ;
    }
}

/// `resampled_len` is the rounded-up quotient `ceil(len * to / from)`: the
/// least count whose span at the source rate covers the input.
pub proof fn lemma_resampled_len_is_ceil(len: int, from: int, to: int)
    requires
        0 <= len,
        1 <= from,
        0 <= to,
    ensures
        resampled_len(len, from, to) * from >= len * to,
        (resampled_len(len, from, to) - 1) * from < len * to,
{
    assert(len * to >= 0) by (nonlinear_arith)
        requires
            len >= 0,
            to >= 0,
    ;
    lemma_ceil_div(len * to, from);
}

/// Resampling at an unchanged rate is the identity.
pub proof fn lemma_resample_identity(s: Seq<int>, rate: int)
    requires
        1 <= rate,
    ensures
        resampled_seq(s, rate, rate) == s,
{
    let len = s.len() as int;
    lemma_fundamental_div_mod_converse(len * rate + rate - 1, rate, len, rate - 1);
    assert forall|i: int| 0 <= i < s.len() implies #[trigger] resampled_value(s, rate, rate, i)
        == s[i] by {
        let num = i * rate;
        lemma_fundamental_div_mod_converse(num, rate, i, 0);
        assert(num / rate == i && num % rate == 0);
        if i + 1 < s.len() {
            assert(s[i] * (rate - 0) + s[i + 1] * 0 == s[i] * rate) by (nonlinear_arith);
            lemma_mul_is_commutative(s[i], rate);
            lemma_div_multiples_vanish(s[i], rate);
        }
    }
    assert(resampled_seq(s, rate, rate) =~= s);
}

/// Linear resampling from `from_rate` to `to_rate`. Always produces an
/// output; at an unchanged rate the input comes back as it is.
pub fn resample(samples: &Vec<i64>, from_rate: u32, to_rate: u32) -> (r: Vec<i64>)
    requires
        1 <= from_rate,
        1 <= to_rate,
        samples_ok(samples@),
        samples@.len() * to_rate + from_rate <= u64::MAX,
        resampled_len(samples@.len() as int, from_rate as int, to_rate as int) <= usize::MAX,
    ensures
        q(r@) == resampled_seq(q(samples@), from_rate as int, to_rate as int),
        r@.len() == resampled_len(samples@.len() as int, from_rate as int, to_rate as int),
        samples_ok(r@),
        from_rate == to_rate ==> r@ == samples@,
{
    let len = samples.len();
    if from_rate == to_rate {
        proof {
            lemma_resample_identity(q(samples@), from_rate as int);
        }
        let mut out: Vec<i64> = Vec::new();
        let mut k: usize = 0;
        while k < len
            invariant
                k <= len,
                len == samples@.len(),
                out@ == samples@.subrange(0, k as int),
            decreases len - k,
        {
            out.push(samples[k]);
            proof {
                assert(out@ =~= samples@.subrange(0, k + 1));
            }
            k = k + 1;
        }
        proof {
            assert(out@ =~= samples@);
        }
        return out;
    }
    let from64 = from_rate as u64;
    let to64 = to_rate as u64;
    let total: u64 = (len as u64) * to64;
    let out_len64: u64 = (total + from64 - 1) / from64;
    proof {
        lemma_ceil_div(total as int, from64 as int);
    }
    let out_len: usize = out_len64 as usize;
    let mut out: Vec<i64> = Vec::new();
    let mut i: usize = 0;
    while i < out_len
        invariant
            i <= out_len,
            len == samples@.len(),
            samples_ok(samples@),
            1 <= from64 <= u32::MAX,
            1 <= to64 <= u32::MAX,
            total == len * to64,
            total + from64 <= u64::MAX,
            out_len == out_len64,
            out_len64 as int == resampled_len(len as int, from64 as int, to64 as int),
            (out_len64 - 1) * from64 < total,
            out@.len() == i,
            samples_ok(out@),
            forall|j: int|
                0 <= j < i ==> #[trigger] out@[j] as int == resampled_value(
                    q(samples@),
                    from64 as int,
                    to64 as int,
                    j,
                ),
        decreases out_len - i,
    {
        proof {
            lemma_mul_inequality(i as int, out_len64 - 1, from64 as int);
        }
        let num: u64 = (i as u64) * from64;
        let idx64: u64 = num / to64;
        let rem64: u64 = num % to64;
        proof {
            lemma_mod_bound(num as int, to64 as int);
            lemma_div_nonincreasing(num as int, to64 as int);
        }
        let v: i64 = if idx64 + 1 < len as u64 {
            let idx = idx64 as usize;
            let a = samples[idx];
            let b = samples[idx + 1];
            let ghost ai = a as int;
            let ghost bi = b as int;
            let ghost ti = to64 as int;
            let ghost ri = rem64 as int;
            proof {
                assert((-0x8000_0000_0000_0000 <= ai * (ti - ri) <= 0x8000_0000_0000_0000)
                    && (-0x8000_0000_0000_0000 <= bi * ri <= 0x8000_0000_0000_0000) && ((
                -0x8000_0000) * ti <= ai * (ti - ri) + bi * ri <= 0x8000_0000 * ti))
                    by (nonlinear_arith)
                    requires
                        -0x8000_0000 <= ai <= 0x8000_0000,
                        -0x8000_0000 <= bi <= 0x8000_0000,
                        0 <= ri <= ti,
                        1 <= ti <= 0x1_0000_0000,
                ;
            }
            let t1: i128 = (a as i128) * ((to64 as i128) - (rem64 as i128));
            let t2: i128 = (b as i128) * (rem64 as i128);
            let numer: i128 = t1 + t2;
            proof {
                lemma_avg_in_range(numer as int, ti, -SAMPLE_SCALE as int, SAMPLE_SCALE as int);
            }
            div_floor_i128(numer, to64)
        } else if idx64 < len as u64 {
            samples[idx64 as usize]
        } else {
            0
        };
        out.push(v);
        i = i + 1;
    }
    proof {
        assert(q(out@) =~= resampled_seq(q(samples@), from_rate as int, to_rate as int));
    }
    out
}

/// An audio conversion failure.
#[derive(Debug, Clone)]
pub enum AudioConvertError {
    /// The payload was not valid base64; carries the decoder's message.
    Base64DecodeError(String),
    /// The bytes did not parse as a WAV container; carries a diagnostic.
    WavDecodeError(String),
    /// The format tag is unknown, or recognized but not yet implemented.
    UnsupportedFormat(String),
    /// A sample encoding outside the supported set. The decoder reports such
    /// containers through `WavDecodeError` instead, so this variant is not
    /// currently produced.
    UnsupportedSampleFormat,
}

impl AudioConvertError {
    /// The human-readable message of this error.
    pub open spec fn message_spec(self) -> Seq<char> {
        match self {
            AudioConvertError::Base64DecodeError(d) => "Base64 decode error: "@ + d@,
            AudioConvertError::WavDecodeError(d) => "WAV decode error: "@ + d@,
            AudioConvertError::UnsupportedFormat(f) => "Unsupported format: "@ + f@,
            AudioConvertError::UnsupportedSampleFormat => "Unsupported sample format"@,
        }
    }

    /// Renders the error as a human-readable message.
    pub fn message(&self) -> (r: String)
        ensures
            r@ == self.message_spec(),
    {
        match self {
            AudioConvertError::Base64DecodeError(d) => "Base64 decode error: ".to_owned().concat(
                d.as_str(),
            ),
            AudioConvertError::WavDecodeError(d) => "WAV decode error: ".to_owned().concat(
                d.as_str(),
            ),
            AudioConvertError::UnsupportedFormat(f) => "Unsupported format: ".to_owned().concat(
                f.as_str(),
            ),
            AudioConvertError::UnsupportedSampleFormat => "Unsupported sample format".to_owned(),
        }
    }
}

/// Canonical audio: mono 16 kHz Q31 samples and the derived duration.
#[derive(Debug, Clone)]
pub struct AudioConvertResult {
    /// Q31 samples at 16 kHz, one channel.
    pub samples: Vec<i64>,
    /// `floor(len(samples) * 1000 / 16000)` milliseconds.
    pub duration_ms: u64,
}

/// What base64's STANDARD engine decodes a character sequence to, when it is
/// valid standard base64.
pub uninterp spec fn base64_decoded(s: Seq<char>) -> Option<Seq<u8>>;

/// Relies on the base64 crate's STANDARD engine `decode`: the result is a
/// function of the input characters alone, and it is the decoded payload
/// exactly when the input is valid standard base64. Valid input is ASCII and
/// decodes to at most 3 bytes for every started group of 4 characters, so
/// the payload is never longer than the input. A failure is carried as the
/// decoder's rendered message.
#[verifier::external_body]
fn base64_decode(s: &str) -> (r: Result<Vec<u8>, String>)
    ensures
        r is Ok <==> base64_decoded(s@) is Some,
        r matches Ok(v) ==> v@ == base64_decoded(s@).unwrap() && v@.len() <= s@.len(),
{
    match base64::engine::general_purpose::STANDARD.decode(s) {
        Ok(v) => Ok(v),
        Err(e) => Err(e.to_string()),
    }
}

/// ASCII lowercasing of one character.
pub open spec fn lower_char(c: char) -> char {
    if 'A' <= c && c <= 'Z' {
        ((c as u8) + 32) as char
    } else {
        c
    }
}

/// ASCII lowercasing of a character sequence.
pub open spec fn ascii_lower(s: Seq<char>) -> Seq<char> {
    s.map_values(|c: char| lower_char(c))
}

fn lower_char_exec(c: char) -> (r: char)
    ensures
        r == lower_char(c),
{
    let u = c as u32;
    if 65 <= u && u <= 90 {
        ((u + 32) as u8) as char
    } else {
        c
    }
}

/// Compares two strings ASCII-case-insensitively.
fn eq_ignore_ascii_case_str(a: &str, b: &str) -> (r: bool)
    ensures
        r == (ascii_lower(a@) == ascii_lower(b@)),
{
    let na = a.unicode_len();
    let nb = b.unicode_len();
    if na != nb {
        proof {
            assert(ascii_lower(a@).len() == a@.len());
            assert(ascii_lower(b@).len() == b@.len());
        }
        return false;
    }
    let mut i: usize = 0;
    while i < na
        invariant
            i <= na,
            na == a@.len(),
            na == b@.len(),
            forall|j: int| 0 <= j < i ==> ascii_lower(a@)[j] == ascii_lower(b@)[j],
        decreases na - i,
    {
        let ca = a.get_char(i);
        let cb = b.get_char(i);
        if lower_char_exec(ca) != lower_char_exec(cb) {
            proof {
                assert(ascii_lower(a@)[i as int] != ascii_lower(b@)[i as int]);
            }
            return false;
        }
        i = i + 1;
    }
    proof {
        assert(ascii_lower(a@) =~= ascii_lower(b@));
    }
    true
}

/// The sum of `s[lo..hi]`.
pub open spec fn sum_range(s: Seq<int>, lo: int, hi: int) -> int
    decreases hi - lo,
{
    if lo >= hi {
        0
    } else {
        s[lo] + sum_range(s, lo + 1, hi)
    }
}

proof fn lemma_sum_range_extend(s: Seq<int>, lo: int, hi: int)
    requires
        lo <= hi,
    ensures
        sum_range(s, lo, hi + 1) == sum_range(s, lo, hi) + s[hi],
    decreases hi - lo,
{
    if lo < hi {
        lemma_sum_range_extend(s, lo + 1, hi);
    } else {
        assert(sum_range(s, lo + 1, hi + 1) == 0);
        assert(sum_range(s, lo, hi) == 0);
    }
}

/// The number of frames in `len` interleaved samples of `ch` channels,
/// counting a trailing partial frame.
pub open spec fn frame_count(len: int, ch: int) -> int {
    (len + ch - 1) / ch
}

/// The mean of frame `f`: the sum of its channel values divided by how many
/// of them the buffer holds (fewer than `ch` only in a trailing partial
/// frame), rounding toward minus infinity.
pub open spec fn frame_mean(s: Seq<int>, ch: int, f: int) -> int {
    let lo = f * ch;
    let hi = if lo + ch <= s.len() {
        lo + ch
    } else {
        s.len() as int
    };
    sum_range(s, lo, hi) / (hi - lo)
}

/// Down-mixing to mono: one mean per frame.
pub open spec fn downmix_spec(s: Seq<int>, ch: int) -> Seq<int> {
    Seq::new(frame_count(s.len() as int, ch) as nat, |f: int| frame_mean(s, ch, f))
}

/// Down-mixing a buffer of complete frames yields exactly one sample per
/// frame, each the arithmetic mean of that frame's channel values (rounded
/// toward minus infinity).
pub proof fn lemma_downmix_frames(s: Seq<int>, ch: int, frames: int)
    requires
        1 <= ch,
        0 <= frames,
        s.len() == frames * ch,
    ensures
        downmix_spec(s, ch).len() == frames,
        forall|f: int|
            0 <= f < frames ==> #[trigger] downmix_spec(s, ch)[f] == sum_range(
                s,
                f * ch,
                f * ch + ch,
            ) / ch,
{
    lemma_fundamental_div_mod_converse(frames * ch + ch - 1, ch, frames, ch - 1);
    assert forall|f: int| 0 <= f < frames implies #[trigger] downmix_spec(s, ch)[f] == sum_range(
        s,
        f * ch,
        f * ch + ch,
    ) / ch by {
        lemma_mul_inequality(f + 1, frames, ch);
        assert((f + 1) * ch == f * ch + ch) by (nonlinear_arith);
        assert(f * ch >= 0) by (nonlinear_arith)
            requires
                f >= 0,
                ch >= 1,
        ;
    }
}

/// Down-mixes interleaved samples to mono by averaging each frame.
fn downmix(samples: &Vec<i64>, channels: u32) -> (r: Vec<i64>)
    requires
        1 <= channels,
        samples_ok(samples@),
    ensures
        q(r@) == downmix_spec(q(samples@), channels as int),
        r@.len() == frame_count(samples@.len() as int, channels as int),
        samples_ok(r@),
{
    let len = samples.len();
    let ch = channels as usize;
    proof {
        lemma_ceil_div(len as int, ch as int);
    }
    let frames: usize = if len == 0 {
        proof {
            lemma_fundamental_div_mod_converse(ch as int - 1, ch as int, 0, ch as int - 1);
        }
        0
    } else {
        proof {
            vstd::arithmetic::div_mod::lemma_div_plus_one(len as int - 1, ch as int);
        }
        (len - 1) / ch + 1
    };
    let mut out: Vec<i64> = Vec::new();
    let mut f: usize = 0;
    while f < frames
        invariant
            f <= frames,
            len == samples@.len(),
            ch == channels,
            1 <= ch,
            samples_ok(samples@),
            frames as int == frame_count(len as int, ch as int),
            (frames as int - 1) * ch < len as int,
            out@.len() == f,
            samples_ok(out@),
            forall|g: int|
                0 <= g < f ==> #[trigger] out@[g] as int == frame_mean(q(samples@), ch as int, g),
        decreases frames - f,
    {
        proof {
            lemma_mul_inequality(f as int, frames as int - 1, ch as int);
        }
        let lo: usize = f * ch;
        let hi: usize = if len - lo > ch {
            lo + ch
        } else {
            len
        };
        let cnt: usize = hi - lo;
        let mut sum: i64 = 0;
        let mut k: usize = lo;
        while k < hi
            invariant
                lo <= k <= hi,
                hi <= len,
                len == samples@.len(),
                samples_ok(samples@),
                hi - lo <= ch,
                ch <= 0xFFFF_FFFF,
                sum as int == sum_range(q(samples@), lo as int, k as int),
                -((k - lo) as int) * (SAMPLE_SCALE as int) <= sum as int <= ((k - lo) as int) * (
                SAMPLE_SCALE as int),
            decreases hi - k,
        {
            proof {
                lemma_sum_range_extend(q(samples@), lo as int, k as int);
                lemma_mul_inequality((k - lo + 1) as int, ch as int, SAMPLE_SCALE as int);
                lemma_mul_inequality(ch as int, 0xFFFF_FFFF, SAMPLE_SCALE as int);
                assert(((k - lo + 1) as int) * (SAMPLE_SCALE as int) == ((k - lo) as int) * (
                SAMPLE_SCALE as int) + SAMPLE_SCALE as int) by (nonlinear_arith);
            }
            sum = sum + samples[k];
            k = k + 1;
        }
        proof {
            assert((-(SAMPLE_SCALE as int)) * (cnt as int) == -((cnt as int) * (
            SAMPLE_SCALE as int))) by (nonlinear_arith);
            lemma_mul_is_commutative(SAMPLE_SCALE as int, cnt as int);
            lemma_avg_in_range(sum as int, cnt as int, -SAMPLE_SCALE as int, SAMPLE_SCALE as int);
        }
        let mean: i64 = div_floor_i128(sum as i128, cnt as u64);
        out.push(mean);
        f = f + 1;
    }
    proof {
        assert(q(out@) =~= downmix_spec(q(samples@), channels as int));
    }
    out
}

/// A RIFF/WAVE container preamble: "RIFF", a chunk size, "WAVE".
pub open spec fn riff_ok(b: Seq<u8>) -> bool {
    b.len() >= 12 && b.subrange(0, 4) == seq![82u8, 73u8, 70u8, 70u8] && b.subrange(8, 12)
        == seq![87u8, 65u8, 86u8, 69u8]
}

/// The chunk id "fmt ".
pub open spec fn fmt_tag_bytes() -> Seq<u8> {
    seq![102u8, 109u8, 116u8, 32u8]
}

/// The chunk id "data".
pub open spec fn data_tag_bytes() -> Seq<u8> {
    seq![100u8, 97u8, 116u8, 97u8]
}

/// Walks the chunk list from offset `i`, keeping the first complete "fmt "
/// chunk (at least 16 payload bytes present) and the first "data" chunk (its
/// payload clipped to what the buffer holds). Chunks are padded to an even
/// size; the walk stops at the end of the buffer or at a chunk that runs
/// past it.
pub open spec fn scan_chunks(b: Seq<u8>, i: int, fmt: Option<int>, data: Option<(int, int)>) -> (
    Option<int>,
    Option<(int, int)>,
)
    decreases b.len() - i,
{
    if i + 8 > b.len() {
        (fmt, data)
    } else {
        let id = b.subrange(i, i + 4);
        let size = le32(b, i + 4);
        let body = i + 8;
        let avail = if body + size <= b.len() {
            size
        } else {
            b.len() - body
        };
        let fmt2 = if fmt is None && id == fmt_tag_bytes() && avail >= 16 {
            Option::Some(body)
        } else {
            fmt
        };
        let data2 = if data is None && id == data_tag_bytes() {
            Option::Some((body, avail))
        } else {
            data
        };
        let next = body + size + size % 2;
        if next > b.len() {
            (fmt2, data2)
        } else {
            scan_chunks(b, next, fmt2, data2)
        }
    }
}

/// The chunks of a WAV buffer: the first "fmt " payload offset and the first
/// "data" payload location.
pub open spec fn wav_scan(b: Seq<u8>) -> (Option<int>, Option<(int, int)>) {
    scan_chunks(b, 12, Option::None, Option::None)
}

pub open spec fn wav_fmt_off(b: Seq<u8>) -> int {
    wav_scan(b).0.unwrap()
}

pub open spec fn wav_data_off(b: Seq<u8>) -> int {
    wav_scan(b).1.unwrap().0
}

pub open spec fn wav_data_len(b: Seq<u8>) -> int {
    wav_scan(b).1.unwrap().1
}

/// The container's sample-encoding tag: 1 is integer PCM, 3 is float.
pub open spec fn wav_audio_format(b: Seq<u8>) -> int {
    le16(b, wav_fmt_off(b))
}

pub open spec fn wav_channels(b: Seq<u8>) -> int {
    le16(b, wav_fmt_off(b) + 2)
}

pub open spec fn wav_rate(b: Seq<u8>) -> int {
    le32(b, wav_fmt_off(b) + 4)
}

pub open spec fn wav_bits(b: Seq<u8>) -> int {
    le16(b, wav_fmt_off(b) + 14)
}

pub open spec fn wav_is_float(b: Seq<u8>) -> bool {
    wav_audio_format(b) == 3
}

/// A well-formed container: RIFF preamble, both chunks present, at least one
/// channel, a positive sample rate.
pub open spec fn wav_structure_ok(b: Seq<u8>) -> bool {
    riff_ok(b) && wav_scan(b).0 is Some && wav_scan(b).1 is Some && wav_channels(b) >= 1
        && wav_rate(b) >= 1
}

/// The sample encodings this decoder reads.
pub open spec fn good_sample_format(tag: int, bits: int) -> bool {
    (tag == 1 && (bits == 8 || bits == 16 || bits == 24 || bits == 32)) || (tag == 3 && bits
        == 32)
}

pub open spec fn wav_format_supported(b: Seq<u8>) -> bool {
    good_sample_format(wav_audio_format(b), wav_bits(b))
}

pub open spec fn wav_bytes_per(b: Seq<u8>) -> int {
    wav_bits(b) / 8
}

/// How many complete samples the data chunk holds; trailing bytes of an
/// incomplete sample are dropped.
pub open spec fn wav_sample_count(b: Seq<u8>) -> int {
    wav_data_len(b) / wav_bytes_per(b)
}

/// The interleaved Q31 samples of the data chunk.
pub open spec fn wav_raw_samples(b: Seq<u8>) -> Seq<int> {
    Seq::new(
        wav_sample_count(b) as nat,
        |j: int|
            wav_sample_q31(
                b,
                wav_data_off(b) + j * wav_bytes_per(b),
                wav_bits(b),
                wav_is_float(b),
            ),
    )
}

/// The canonical mono 16 kHz samples of a well-formed container: the
/// interleaved samples down-mixed, then resampled unless already at 16 kHz.
pub open spec fn normalized_of(b: Seq<u8>) -> Seq<int> {
    let mono = downmix_spec(wav_raw_samples(b), wav_channels(b));
    if wav_rate(b) == 16000 {
        mono
    } else {
        resampled_seq(mono, wav_rate(b), 16000)
    }
}

/// What decoding a WAV buffer returns: canonical samples and the derived
/// duration exactly when the container is well formed and its sample
/// encoding supported; every failure, an unsupported sample encoding
/// included, is the container decode error with a diagnostic.
pub open spec fn wav_decode_post(
    b: Seq<u8>,
    r: Result<AudioConvertResult, AudioConvertError>,
) -> bool {
    &&& (r is Ok <==> wav_structure_ok(b) && wav_format_supported(b))
    &&& (r matches Ok(res) ==> q(res.samples@) == normalized_of(b) && res.duration_ms as int
        == res.samples@.len() * 1000 / 16000 && samples_ok(res.samples@))
    &&& (r matches Err(e) ==> e is WavDecodeError)
}

pub open spec fn opt_off(o: Option<usize>) -> Option<int> {
    match o {
        Option::None => Option::None,
        Option::Some(x) => Option::Some(x as int),
    }
}

pub open spec fn opt_loc(o: Option<(usize, usize)>) -> Option<(int, int)> {
    match o {
        Option::None => Option::None,
        Option::Some((x, y)) => Option::Some((x as int, y as int)),
    }
}

/// Decodes a WAV container to canonical mono 16 kHz Q31 samples: reads the
/// fmt chunk, scales each data-chunk sample to Q31, down-mixes interleaved
/// channels by their per-frame mean, resamples to 16 kHz, and derives the
/// duration from the output length. An incomplete trailing sample is
/// dropped rather than failing the decode.
pub fn decode_wav(bytes: &Vec<u8>) -> (r: Result<AudioConvertResult, AudioConvertError>)
    requires
        bytes@.len() * 16000 <= usize::MAX,
        bytes@.len() * 16000 + 0x1_0000_0000 <= u64::MAX,
    ensures
        wav_decode_post(bytes@, r),
{
    let n = bytes.len();
    proof {
        assert(n as int <= n as int * 16000) by (nonlinear_arith)
            requires
                n >= 0,
        ;
    }
    if n < 12 {
        return Err(AudioConvertError::WavDecodeError("truncated RIFF header".to_owned()));
    }
    let riff = bytes[0] == 82 && bytes[1] == 73 && bytes[2] == 70 && bytes[3] == 70 && bytes[8]
        == 87 && bytes[9] == 65 && bytes[10] == 86 && bytes[11] == 69;
    proof {
        if riff {
            assert(bytes@.subrange(0, 4) =~= seq![82u8, 73u8, 70u8, 70u8]);
            assert(bytes@.subrange(8, 12) =~= seq![87u8, 65u8, 86u8, 69u8]);
        } else if riff_ok(bytes@) {
            assert(bytes@[0] == bytes@.subrange(0, 4)[0]);
            assert(bytes@[1] == bytes@.subrange(0, 4)[1]);
            assert(bytes@[2] == bytes@.subrange(0, 4)[2]);
            assert(bytes@[3] == bytes@.subrange(0, 4)[3]);
            assert(bytes@[8] == bytes@.subrange(8, 12)[0]);
            assert(bytes@[9] == bytes@.subrange(8, 12)[1]);
            assert(bytes@[10] == bytes@.subrange(8, 12)[2]);
            assert(bytes@[11] == bytes@.subrange(8, 12)[3]);
        }
    }
    if !riff {
        return Err(AudioConvertError::WavDecodeError("not a RIFF/WAVE container".to_owned()));
    }
    let mut i: usize = 12;
    let mut fmt_found: Option<usize> = Option::None;
    let mut data_found: Option<(usize, usize)> = Option::None;
    while n - i >= 8
        invariant
            12 <= i <= n,
            n == bytes@.len(),
            n as int * 16000 <= usize::MAX,
            n as int * 16000 + 0x1_0000_0000 <= u64::MAX,
            n as int <= n as int * 16000,
            wav_scan(bytes@) == scan_chunks(bytes@, i as int, opt_off(fmt_found), opt_loc(
                data_found,
            )),
            fmt_found matches Option::Some(off) ==> 12 <= off && off + 16 <= n,
            data_found matches Option::Some(loc) ==> 12 <= loc.0 && loc.0 + loc.1 <= n,
        decreases n - i,
    {
        let body = i + 8;
        let size32 = read_u32(bytes, i + 4);
        let rem_bytes = n - body;
        let avail: usize = if (size32 as u64) <= (rem_bytes as u64) {
            size32 as usize
        } else {
            rem_bytes
        };
        let is_fmt = bytes[i] == 102 && bytes[i + 1] == 109 && bytes[i + 2] == 116 && bytes[i + 3]
            == 32;
        let is_data = bytes[i] == 100 && bytes[i + 1] == 97 && bytes[i + 2] == 116 && bytes[i + 3]
            == 97;
        proof {
            let id = bytes@.subrange(i as int, i as int + 4);
            assert(bytes@[i as int] == id[0]);
            assert(bytes@[i as int + 1] == id[1]);
            assert(bytes@[i as int + 2] == id[2]);
            assert(bytes@[i as int + 3] == id[3]);
            if is_fmt {
                assert(id =~= fmt_tag_bytes());
            }
            if is_data {
                assert(id =~= data_tag_bytes());
            }
        }
        let new_fmt: Option<usize> = if fmt_found.is_none() && is_fmt && avail >= 16 {
            Option::Some(body)
        } else {
            fmt_found
        };
        let new_data: Option<(usize, usize)> = if data_found.is_none() && is_data {
            Option::Some((body, avail))
        } else {
            data_found
        };
        let next64: u64 = (body as u64) + (size32 as u64) + ((size32 as u64) % 2);
        proof {
            assert(scan_chunks(bytes@, i as int, opt_off(fmt_found), opt_loc(data_found)) == (
            if next64 as int > n as int {
                (opt_off(new_fmt), opt_loc(new_data))
            } else {
                scan_chunks(bytes@, next64 as int, opt_off(new_fmt), opt_loc(new_data))
            }));
        }
        fmt_found = new_fmt;
        data_found = new_data;
        if next64 > n as u64 {
            i = n;
        } else {
            i = next64 as usize;
        }
    }
    proof {
        assert(scan_chunks(bytes@, i as int, opt_off(fmt_found), opt_loc(data_found)) == (opt_off(
            fmt_found,
        ), opt_loc(data_found)));
    }
    let f_off: usize = match fmt_found {
        Option::Some(x) => x,
        Option::None => {
            return Err(AudioConvertError::WavDecodeError("missing fmt chunk".to_owned()));
        },
    };
    let (d_off, d_len): (usize, usize) = match data_found {
        Option::Some(p) => p,
        Option::None => {
            return Err(AudioConvertError::WavDecodeError("missing data chunk".to_owned()));
        },
    };
    let tag = read_u16(bytes, f_off);
    let channels = read_u16(bytes, f_off + 2);
    let rate = read_u32(bytes, f_off + 4);
    let bits = read_u16(bytes, f_off + 14);
    if channels == 0 || rate == 0 {
        return Err(AudioConvertError::WavDecodeError("bad fmt chunk".to_owned()));
    }
    let supported = (tag == 1 && (bits == 8 || bits == 16 || bits == 24 || bits == 32)) || (tag
        == 3 && bits == 32);
    if !supported {
        return Err(AudioConvertError::WavDecodeError("unsupported sample encoding".to_owned()));
    }
    let is_float = tag == 3;
    let bytes_per: usize = (bits / 8) as usize;
    let count: usize = d_len / bytes_per;
    proof {
        lemma_fundamental_div_mod(d_len as int, bytes_per as int);
        lemma_mod_bound(d_len as int, bytes_per as int);
        lemma_mul_is_commutative(count as int, bytes_per as int);
    }
    let mut raw: Vec<i64> = Vec::new();
    let mut j: usize = 0;
    while j < count
        invariant
            j <= count,
            n == bytes@.len(),
            wav_structure_ok(bytes@),
            wav_format_supported(bytes@),
            d_off as int == wav_data_off(bytes@),
            d_len as int == wav_data_len(bytes@),
            bits as int == wav_bits(bytes@),
            is_float == wav_is_float(bytes@),
            bytes_per as int == wav_bytes_per(bytes@),
            count as int == wav_sample_count(bytes@),
            1 <= bytes_per <= 4,
            d_off + d_len <= n,
            count as int * bytes_per as int <= d_len as int,
            raw@.len() == j,
            samples_ok(raw@),
            forall|t: int| 0 <= t < j ==> #[trigger] raw@[t] as int == wav_raw_samples(bytes@)[t],
        decreases count - j,
    {
        proof {
            lemma_mul_inequality(j as int + 1, count as int, bytes_per as int);
            assert((j as int + 1) * bytes_per as int == j as int * bytes_per as int
                + bytes_per as int) by (nonlinear_arith);
            assert(j as int * bytes_per as int >= 0) by (nonlinear_arith)
                requires
                    j >= 0,
                    bytes_per >= 1,
            ;
        }
        let off: usize = d_off + j * bytes_per;
        let v: i64 = if is_float {
            f32_bits_to_q31(read_u32(bytes, off))
        } else if bits == 8 {
            (bytes[off] as i64 - 128) * 0x100_0000
        } else if bits == 16 {
            let u = read_u16(bytes, off);
            let s: i64 = if u >= 0x8000 {
                u as i64 - 0x1_0000
            } else {
                u as i64
            };
            s * 0x1_0000
        } else if bits == 24 {
            let _n = bytes.len();
            let u: u32 = bytes[off] as u32 + (bytes[off + 1] as u32) * 256 + (bytes[off + 2]
                as u32) * 65536;
            let s: i64 = if u >= 0x80_0000 {
                u as i64 - 0x100_0000
            } else {
                u as i64
            };
            s * 0x100
        } else {
            let u = read_u32(bytes, off);
            if u >= 0x8000_0000 {
                u as i64 - 0x1_0000_0000
            } else {
                u as i64
            }
        };
        proof {
            assert(v as int == wav_sample_q31(bytes@, off as int, bits as int, is_float));
            assert(wav_raw_samples(bytes@)[j as int] == v as int);
            assert(sample_ok(v));
        }
        raw.push(v);
        j = j + 1;
    }
    proof {
        assert(q(raw@) =~= wav_raw_samples(bytes@));
    }
    let mono = downmix(&raw, channels as u32);
    proof {
        lemma_ceil_div(raw@.len() as int, channels as int);
        lemma_mul_inequality(mono@.len() as int, n as int, 16000);
    }
    let final_samples: Vec<i64> = if rate == TARGET_RATE {
        proof {
            lemma_resample_identity(q(mono@), 16000);
        }
        mono
    } else {
        proof {
            lemma_ceil_div(mono@.len() as int * 16000, rate as int);
        }
        resample(&mono, rate, TARGET_RATE)
    };
    let flen = final_samples.len();
    proof {
        lemma_mul_inequality(1000, 16000, flen as int);
        lemma_mul_is_commutative(1000, flen as int);
        lemma_mul_is_commutative(16000, flen as int);
        lemma_div_is_ordered(flen as int * 1000, flen as int * 16000, 16000);
        lemma_div_multiples_vanish(flen as int, 16000);
    }
    let duration_ms: u64 = ((flen as u128) * 1000 / 16000) as u64;
    Ok(AudioConvertResult { samples: final_samples, duration_ms })
}

/// What converting raw bytes under a format tag returns: the tag is matched
/// ASCII-case-insensitively; "wav" decodes, "ogg" is recognized but not yet
/// implemented, and anything else is unknown and echoed in the error.
pub open spec fn convert_post(
    b: Seq<u8>,
    format: Seq<char>,
    r: Result<AudioConvertResult, AudioConvertError>,
) -> bool {
    if ascii_lower(format) == "wav"@ {
        wav_decode_post(b, r)
    } else if ascii_lower(format) == "ogg"@ {
        r matches Err(e) && e matches AudioConvertError::UnsupportedFormat(m) && m@
            == "ogg (not yet implemented)"@
    } else {
        r matches Err(e) && e matches AudioConvertError::UnsupportedFormat(m) && m@ == format
    }
}

/// Converts raw container bytes of the given format to canonical audio.
pub fn convert_from_bytes(bytes: &Vec<u8>, format: &str) -> (r: Result<
    AudioConvertResult,
    AudioConvertError,
>)
    requires
        bytes@.len() * 16000 <= usize::MAX,
        bytes@.len() * 16000 + 0x1_0000_0000 <= u64::MAX,
    ensures
        convert_post(bytes@, format@, r),
{
    if eq_ignore_ascii_case_str(format, "wav") {
        proof {
            reveal_strlit("wav");
            assert(ascii_lower("wav"@) =~= "wav"@);
        }
        decode_wav(bytes)
    } else if eq_ignore_ascii_case_str(format, "ogg") {
        proof {
            reveal_strlit("wav");
            reveal_strlit("ogg");
            assert(ascii_lower("wav"@) =~= "wav"@);
            assert(ascii_lower("ogg"@) =~= "ogg"@);
        }
        Err(AudioConvertError::UnsupportedFormat("ogg (not yet implemented)".to_owned()))
    } else {
        proof {
            reveal_strlit("wav");
            reveal_strlit("ogg");
            assert(ascii_lower("wav"@) =~= "wav"@);
            assert(ascii_lower("ogg"@) =~= "ogg"@);
        }
        Err(AudioConvertError::UnsupportedFormat(format.to_owned()))
    }
}

/// Decodes a base64 payload and converts it under the given format tag. A
/// payload that is not valid base64 fails before any container parsing.
pub fn convert_from_base64(base64_data: &str, format: &str) -> (r: Result<
    AudioConvertResult,
    AudioConvertError,
>)
    requires
        base64_data@.len() * 16000 <= usize::MAX,
        base64_data@.len() * 16000 + 0x1_0000_0000 <= u64::MAX,
    ensures
        base64_decoded(base64_data@) is None ==> (r matches Err(e)
            && e is Base64DecodeError),
        base64_decoded(base64_data@) matches Option::Some(bs) ==> convert_post(bs, format@, r),
{
    match base64_decode(base64_data) {
        Err(m) => Err(AudioConvertError::Base64DecodeError(m)),
        Ok(decoded) => {
            proof {
                lemma_mul_inequality(decoded@.len() as int, base64_data@.len() as int, 16000);
            }
            convert_from_bytes(&decoded, format)
        },
    }
}

} // verus!
