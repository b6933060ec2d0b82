//! Base32 seeds and time-based codes.

use vstd::prelude::*;
use crate::error::VaultError;

verus! {

/// The length of one time step, in seconds.
pub const STEP_SECS: u64 = 30;

/// A character of the RFC 4648 Base32 alphabet.
pub open spec fn is_base32_char(c: char) -> bool {
    ('A' <= c && c <= 'Z') || ('2' <= c && c <= '7')
}

/// The five bits that a Base32 character stands for.
pub open spec fn base32_value(c: char) -> int {
    if 'A' <= c && c <= 'Z' {
        c as int - 65
    } else {
        c as int - 24
    }
}

/// Unpadded Base32 text as `data_encoding::BASE32_NOPAD` decodes it: only
/// alphabet characters, a length that ends on a whole byte, and zero bits
/// where the last character reaches past the last byte.
pub open spec fn valid_base32(s: Seq<char>) -> bool {
    let r = s.len() % 8;
    &&& forall|k: int| 0 <= k < s.len() ==> is_base32_char(#[trigger] s[k])
    &&& (r == 0 || r == 2 || r == 4 || r == 5 || r == 7)
    &&& (r == 2 ==> base32_value(s.last()) % 4 == 0)
    &&& (r == 4 ==> base32_value(s.last()) % 16 == 0)
    &&& (r == 5 ==> base32_value(s.last()) % 2 == 0)
    &&& (r == 7 ==> base32_value(s.last()) % 8 == 0)
}

/// The longest seed that the decoder takes: it stops on longer input.
pub const MAX_SEED_LEN: usize = usize::MAX / 8;

/// A seed that this library accepts: valid unpadded Base32 of a length that
/// the decoder takes.
pub open spec fn accepts_seed(s: Seq<char>) -> bool {
    valid_base32(s) && s.len() <= MAX_SEED_LEN
}

/// The bytes that valid Base32 text `s` decodes to.
pub uninterp spec fn base32_bytes(s: Seq<char>) -> Seq<u8>;

/// The six-digit HMAC-SHA1 code of `secret` for the time step `counter`.
pub uninterp spec fn totp_of(secret: Seq<u8>, counter: u64) -> Seq<char>;

/// A string of decimal digits.
pub open spec fn all_digits(s: Seq<char>) -> bool {
    forall|k: int| 0 <= k < s.len() ==> '0' <= #[trigger] s[k] && s[k] <= '9'
}

/// Relies on `data_encoding::BASE32_NOPAD.decode`: succeeds exactly on valid
/// unpadded Base32; it panics on inputs longer than `usize::MAX / 8` bytes.
#[verifier::external_body]
fn base32_decode(s: &str) -> (r: Option<Vec<u8>>)
    requires
        s@.len() <= MAX_SEED_LEN,
        s.is_ascii(),
    ensures
        r is Some <==> valid_base32(s@),
        r matches Some(b) ==> b@ == base32_bytes(s@),
{
    data_encoding::BASE32_NOPAD.decode(s.as_bytes()).ok()
}

/// Relies on `totp_lite::totp_custom::<Sha1>` with a 30-second step and 6
/// digits: it formats the code zero-padded to six digits, from `time / step`.
#[verifier::external_body]
fn totp_sha1(secret: &[u8], time: u64) -> (r: String)
    ensures
        r@ == totp_of(secret@, time / STEP_SECS),
        r@.len() == 6,
        all_digits(r@),
{
    totp_lite::totp_custom::<totp_lite::Sha1>(STEP_SECS, 6, secret, time)
}

proof fn lemma_base32_is_ascii(s: Seq<char>)
    requires
        forall|k: int| 0 <= k < s.len() ==> is_base32_char(#[trigger] s[k]),
    ensures
        vstd::utf8::is_ascii_chars(s),
{
    assert forall|k: int| 0 <= k < s.len() implies '\0' <= #[trigger] s[k] <= '\u{7f}' by {
        assert(is_base32_char(s[k]));
    }
}

/// Decodes an unpadded Base32 seed.
pub fn decode_seed(code: &str) -> (r: Result<Vec<u8>, VaultError>)
    ensures
        r is Ok <==> accepts_seed(code@),
        r matches Ok(b) ==> b@ == base32_bytes(code@),
        r is Err ==> r == Err::<Vec<u8>, VaultError>(VaultError::InvalidBase32),
{
    if code.unicode_len() > MAX_SEED_LEN || !code.is_ascii() {
        proof {
            if valid_base32(code@) {
                lemma_base32_is_ascii(code@);
            }
        }
        return Err(VaultError::InvalidBase32);
    }
    match base32_decode(code) {
        Some(b) => Ok(b),
        None => Err(VaultError::InvalidBase32),
    }
}

/// The code of a Base32 seed at `unix_time`: the same seed gives the same
/// code throughout one time step.
pub fn generate_otp(code: &str, unix_time: u64) -> (r: Result<String, VaultError>)
    ensures
        r is Ok <==> accepts_seed(code@),
        r matches Ok(c) ==> c@ == totp_of(base32_bytes(code@), unix_time / STEP_SECS)
            && c@.len() == 6 && all_digits(c@),
        r is Err ==> r == Err::<String, VaultError>(VaultError::InvalidBase32),
{
    let bytes = decode_seed(code)?;
    Ok(totp_sha1(bytes.as_slice(), unix_time))
}

/// Seconds until the code of `unix_time` gives way to the next one.
pub fn remaining_secs(unix_time: u64) -> (r: u64)
    ensures
        r == STEP_SECS - unix_time % STEP_SECS,
        1 <= r <= STEP_SECS,
{
    STEP_SECS - unix_time % STEP_SECS
}

/// Within one time step a seed gives one code: two times in the same step
/// give the same code.
pub proof fn law_same_step_same_code(secret: Seq<u8>, t1: u64, t2: u64)
    requires
        t1 / STEP_SECS == t2 / STEP_SECS,
    ensures
        totp_of(secret, t1 / STEP_SECS) == totp_of(secret, t2 / STEP_SECS),
{
}

} // verus!
