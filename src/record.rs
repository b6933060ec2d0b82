//! The persisted entity: one secret under one alias.

use vstd::prelude::*;

verus! {

/// The character that separates the fields of a legacy line; no alias may
/// hold it.
pub const DELIMITER: char = ':';

/// The hash algorithm that every record is created with.
pub open spec fn default_algorithm() -> Seq<char> {
    seq!['s', 'h', 'a', '1']
}

/// One secret of the vault.
#[derive(Debug, Clone)]
pub struct Record {
    pub alias: String,
    /// The Base32 seed itself, or the envelope that protects it.
    pub secret: String,
    pub is_unencrypted: bool,
    pub algorithm: String,
    /// Seconds since the Unix epoch at creation.
    pub created_at: u64,
}

/// What a record holds, as values.
pub struct RecordView {
    pub alias: Seq<char>,
    pub secret: Seq<char>,
    pub is_unencrypted: bool,
    pub algorithm: Seq<char>,
    pub created_at: u64,
}

impl View for Record {
    type V = RecordView;

    open spec fn view(&self) -> RecordView {
        RecordView {
            alias: self.alias@,
            secret: self.secret@,
            is_unencrypted: self.is_unencrypted,
            algorithm: self.algorithm@,
            created_at: self.created_at,
        }
    }
}

/// The values of a sequence of records.
pub open spec fn views(rs: Seq<Record>) -> Seq<RecordView> {
    rs.map_values(|r: Record| r@)
}

/// Relies on `SystemTime::now`: the whole seconds since the Unix epoch, or 0
/// where the clock stands before it.
#[verifier::external_body]
fn unix_now() -> (r: u64) {
    match std::time::SystemTime::now().duration_since(std::time::UNIX_EPOCH) {
        Ok(d) => d.as_secs(),
        Err(_) => 0,
    }
}

impl Record {
    /// A record created now, with the default algorithm.
    pub fn new(alias: String, secret: String, is_unencrypted: bool) -> (r: Self)
        ensures
            r.alias@ == alias@,
            r.secret@ == secret@,
            r.is_unencrypted == is_unencrypted,
            r.algorithm@ == default_algorithm(),
    {
        let now = unix_now();
        Self::created(alias, secret, is_unencrypted, now)
    }

    /// A record created at `created_at`, with the default algorithm.
    pub fn created(alias: String, secret: String, is_unencrypted: bool, created_at: u64) -> (r: Self)
        ensures
            r@ == (RecordView {
                alias: alias@,
                secret: secret@,
                is_unencrypted,
                algorithm: default_algorithm(),
                created_at,
            }),
    {
        let algorithm = crate::text::string_of(&['s', 'h', 'a', '1']);
        Record { alias, secret, is_unencrypted, algorithm, created_at }
    }

    /// A copy of this record.
    pub fn duplicate(&self) -> (r: Self)
        ensures
            r@ == self@,
    {
        Record {
            alias: self.alias.clone(),
            secret: self.secret.clone(),
            is_unencrypted: self.is_unencrypted,
            algorithm: self.algorithm.clone(),
            created_at: self.created_at,
        }
    }
}

} // verus!
