//! What can go wrong.

use vstd::prelude::*;

verus! {

/// The failures of the vault's operations.
#[derive(Debug, Clone, Copy, PartialEq, Eq, Structural)]
pub enum VaultError {
    /// There is no store yet; `add` creates one.
    StoreNotFound,
    /// An alias holds the delimiter of the legacy line form.
    InvalidAlias,
    /// A seed is not valid unpadded Base32.
    InvalidBase32,
    AliasAlreadyExists,
    AliasNotFound,
    /// A wrong password, or an envelope that is not one.
    DecryptionFailed,
    /// The copy of the store taken before a change could not be written.
    BackupFailed,
    /// The store could not be read or written.
    IoFailure,
}

impl VaultError {
    /// A message for the user.
    pub fn message(&self) -> (r: &'static str)
        ensures
            *self == VaultError::StoreNotFound ==> r@ == "codex file does not exist. Please use hermes add command or copy existing codex to a default location"@,
            *self == VaultError::InvalidAlias ==> r@ == "Don't use ':' in alias"@,
            *self == VaultError::InvalidBase32 ==> r@ == "Invalid Base32 code provided"@,
            *self == VaultError::AliasAlreadyExists ==> r@ == "Alias already exists, please select another one"@,
            *self == VaultError::AliasNotFound ==> r@ == "Alias not found"@,
            *self == VaultError::DecryptionFailed ==> r@ == "Error: cannot decrypt"@,
            *self == VaultError::BackupFailed ==> r@ == "Failed to back up codex"@,
            *self == VaultError::IoFailure ==> r@ == "Failed to save codex"@,
    {
        match self {
            VaultError::StoreNotFound => {
                "codex file does not exist. Please use hermes add command or copy existing codex to a default location"
            },
            VaultError::InvalidAlias => "Don't use ':' in alias",
            VaultError::InvalidBase32 => "Invalid Base32 code provided",
            VaultError::AliasAlreadyExists => "Alias already exists, please select another one",
            VaultError::AliasNotFound => "Alias not found",
            VaultError::DecryptionFailed => "Error: cannot decrypt",
            VaultError::BackupFailed => "Failed to back up codex",
            VaultError::IoFailure => "Failed to save codex",
        }
    }
}

} // verus!
