//! The envelope that protects a secret with a password: AES-256 in CBC mode,
//! keyed from the password, in standard Base64.

use vstd::prelude::*;
use magic_crypt::MagicCryptTrait;
use crate::error::VaultError;

verus! {

/// The envelope that `key` makes of `plain`.
pub uninterp spec fn envelope_of(key: Seq<char>, plain: Seq<char>) -> Seq<char>;

/// What `key` recovers from `envelope`, if anything.
pub uninterp spec fn opened_of(key: Seq<char>, envelope: Seq<char>) -> Option<Seq<char>>;

/// Relies on `MagicCrypt256::new(key, None)` and `encrypt_str_to_base64`: the
/// key is the SHA-256 of `key`, the IV is fixed, so the envelope depends on
/// the two strings alone.
#[verifier::external_body]
fn seal(key: &str, plain: &str) -> (r: String)
    ensures
        r@ == envelope_of(key@, plain@),
{
    magic_crypt::MagicCrypt256::new(key, None::<&[u8]>).encrypt_str_to_base64(plain)
}

/// The characters of an optional string.
pub open spec fn text_of(o: Option<String>) -> Option<Seq<char>> {
    match o {
        Some(s) => Some(s@),
        None => None,
    }
}

/// Relies on `MagicCrypt256::new(key, None)` and `decrypt_base64_to_string`,
/// which returns an error instead of panicking, and gives back what
/// `encrypt_str_to_base64` sealed with the same key.
#[verifier::external_body]
fn open(key: &str, envelope: &str) -> (r: Option<String>)
    ensures
        text_of(r) == opened_of(key@, envelope@),
        forall|x: Seq<char>| #[trigger] envelope_of(key@, x) == envelope@ ==> text_of(r) == Some(x),
{
    magic_crypt::MagicCrypt256::new(key, None::<&[u8]>).decrypt_base64_to_string(envelope).ok()
}

/// Seals `plain` with `password`, taken as it is: the key is the password's
/// SHA-256.
pub fn encrypt(plain: &str, password: &str) -> (r: String)
    ensures
        r@ == envelope_of(password@, plain@),
{
    seal(password, plain)
}

/// Opens `envelope` with `password`; what `encrypt` sealed with the same
/// password comes back unchanged.
pub fn decrypt(envelope: &str, password: &str) -> (r: Result<String, VaultError>)
    ensures
        match opened_of(password@, envelope@) {
            Some(p) => r matches Ok(s) && s@ == p,
            None => r == Err::<String, VaultError>(VaultError::DecryptionFailed),
        },
        forall|x: Seq<char>|
            #[trigger] envelope_of(password@, x) == envelope@ ==> (r matches Ok(s) && s@
                == x),
{
    match open(password, envelope) {
        Some(p) => Ok(p),
        None => Err(VaultError::DecryptionFailed),
    }
}

/// Seals `code` with `password` when `encrypt` holds, and opens it otherwise.
pub fn crypt(encrypt: bool, code: &str, password: &str) -> (r: Result<String, VaultError>)
    ensures
        encrypt ==> (r matches Ok(s) && s@ == envelope_of(password@, code@)),
        !encrypt ==> match opened_of(password@, code@) {
            Some(p) => r matches Ok(s) && s@ == p,
            None => r == Err::<String, VaultError>(VaultError::DecryptionFailed),
        },
        forall|x: Seq<char>|
            !encrypt && #[trigger] envelope_of(password@, x) == code@ ==> (r matches Ok(s)
                && s@ == x),
{
    if encrypt {
        Ok(self::encrypt(code, password))
    } else {
        decrypt(code, password)
    }
}

} // verus!
