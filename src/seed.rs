use vstd::prelude::*;

use sha2::{Digest, Sha256};
use vstd::string::StrSliceExecFns;

verus! {

/// The SHA-256 digest of a text's UTF-8 bytes, as lower-case hex digits.
pub uninterp spec fn sha256_hex(text: Seq<char>) -> Seq<char>;

/// The fewest characters a seed may have: its first 32 bytes seed the generator.
pub const SEED_LEN: usize = 32;

/// Relies on sha2's `Sha256` (`input`, then `result`) and generic-array's
/// `LowerHex`, which writes each of the 32 digest bytes as two hex digits.
#[verifier::external_body]
fn sha256_hex_of(text: &str) -> (r: String)
    ensures
        r@ == sha256_hex(text@),
        r@.len() == 64,
{
    let mut hasher = Sha256::default();
    hasher.input(text.as_bytes());
    format!("{:x}", hasher.result())
}

/// The seed text for a run: `seed` itself when it is given (`None` when it has
/// fewer than `SEED_LEN` characters); otherwise the SHA-256 hex digest of
/// `text` when that is given, or else of `fallback`.
pub fn choose_seed(seed: Option<&str>, text: Option<&str>, fallback: &str) -> (r: Option<String>)
    ensures
        match seed {
            Some(s) => if s@.len() < SEED_LEN {
                r is None
            } else {
                r is Some && r.unwrap()@ == s@
            },
            None => r is Some && r.unwrap()@ == sha256_hex(
                match text {
                    Some(t) => t@,
                    None => fallback@,
                },
            ),
        },
        r is Some ==> r.unwrap()@.len() >= SEED_LEN,
{
    match seed {
        Some(s) => {
            if s.unicode_len() < SEED_LEN {
                None
            } else {
                Some(s.to_owned())
            }
        },
        None => match text {
            Some(t) => Some(sha256_hex_of(t)),
            None => Some(sha256_hex_of(fallback)),
        },
    }
}

} // verus!
