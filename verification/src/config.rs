//! Service configuration and token generation.

use vstd::prelude::*;
use rand::Rng;

verus! {

/// Characters a generated token is drawn from: lowercase ASCII letters and digits.
pub open spec fn is_token_char(c: char) -> bool {
    ('a' <= c && c <= 'z') || ('0' <= c && c <= '9')
}

/// Persisted service configuration.
#[derive(Debug, Clone)]
pub struct SayTypeConfig {
    /// Whether the API server is enabled.
    pub enabled: bool,
    /// Listening port.
    pub port: u16,
    /// Bearer token expected from clients.
    pub token: String,
    /// Whether first-run onboarding has completed.
    pub onboarded: bool,
}

/// Relies on rand's `thread_rng().gen_range(0..n)`: returns a value uniformly
/// drawn from `[0, n)`; it panics only on an empty range, which the
/// precondition rules out. Nothing more is assumed of a random draw.
#[verifier::external_body]
fn random_below(n: usize) -> (r: usize)
    requires
        1 <= n,
    ensures
        r < n,
{
    rand::thread_rng().gen_range(0..n)
}

/// Relies on `String::push`: appends exactly the given character.
#[verifier::external_body]
fn push_char(s: &mut String, c: char)
    ensures
        final(s)@ == old(s)@.push(c),
{
    s.push(c);
}

/// Generates a fresh 32-character token of lowercase letters and digits.
pub fn generate_random_token() -> (r: String)
    ensures
        r@.len() == 32,
        forall|i: int| 0 <= i < 32 ==> is_token_char(#[trigger] r@[i]),
{
    let mut out = String::new();
    let mut k: usize = 0;
    while k < 32
        invariant
            k <= 32,
            out@.len() == k,
            forall|i: int| 0 <= i < k ==> is_token_char(#[trigger] out@[i]),
        decreases 32 - k,
    {
        let idx = random_below(36);
        let b: u8 = if idx < 26 {
            97 + idx as u8
        } else {
            48 + (idx as u8 - 26)
        };
        let c: char = b as char;
        push_char(&mut out, c);
        k = k + 1;
    }
    out
}

impl Default for SayTypeConfig {
    /// A fresh configuration: disabled, port 8765, not onboarded, with a
    /// newly generated 32-character token.
    fn default() -> (c: Self)
        ensures
            !c.enabled,
            c.port == 8765,
            !c.onboarded,
            c.token@.len() == 32,
            forall|i: int| 0 <= i < 32 ==> is_token_char(#[trigger] c.token@[i]),
    {
        SayTypeConfig {
            enabled: false,
            port: 8765,
            token: generate_random_token(),
            onboarded: false,
        }
    }
}

} // verus!
