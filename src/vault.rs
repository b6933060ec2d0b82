//! The operations on a store. Each takes the whole text of the store and
//! returns what the caller writes back, or an error and nothing to write.

use vstd::prelude::*;
use crate::codec::{encode, encode_record};
use crate::crypto::{encrypt, envelope_of};
use crate::error::VaultError;
use crate::otp::{accepts_seed, base32_bytes, decode_seed, generate_otp, totp_of, STEP_SECS};
use crate::record::{default_algorithm, views, Record, RecordView, DELIMITER};
use crate::store::{law_append_record, parse_store, records_of, render, render_store, with_line};
use crate::text::{chars_of, string_of, to_upper, upper_of};

verus! {

/// Whether some record of `rs` goes by `alias` (exact match).
pub open spec fn has_alias(rs: Seq<RecordView>, alias: Seq<char>) -> bool {
    exists|i: int| 0 <= i < rs.len() && #[trigger] rs[i].alias == alias
}

/// No two records of `rs` share an alias.
pub open spec fn unique_aliases(rs: Seq<RecordView>) -> bool {
    forall|i: int, j: int| 0 <= i < j < rs.len() ==> #[trigger] rs[i].alias != #[trigger] rs[j].alias
}

/// `rs` without the records that go by `alias`.
pub open spec fn without_alias(rs: Seq<RecordView>, alias: Seq<char>) -> Seq<RecordView>
    decreases rs.len(),
{
    if rs.len() == 0 {
        Seq::empty()
    } else {
        let p = without_alias(rs.drop_last(), alias);
        if rs.last().alias == alias {
            p
        } else {
            p.push(rs.last())
        }
    }
}

/// `r` under another alias.
pub open spec fn with_alias(r: RecordView, alias: Seq<char>) -> RecordView {
    RecordView { alias, ..r }
}

/// `rs` with each record that goes by `old` going by `new` instead.
pub open spec fn renamed(rs: Seq<RecordView>, old: Seq<char>, new: Seq<char>) -> Seq<RecordView> {
    Seq::new(rs.len(), |i: int| if rs[i].alias == old { with_alias(rs[i], new) } else { rs[i] })
}

/// `s` without its `=` characters.
pub open spec fn strip_padding_seq(s: Seq<char>) -> Seq<char>
    decreases s.len(),
{
    if s.len() == 0 {
        Seq::empty()
    } else if s.last() == '=' {
        strip_padding_seq(s.drop_last())
    } else {
        strip_padding_seq(s.drop_last()).push(s.last())
    }
}

/// A seed as the user typed it, upper-cased and without padding.
pub open spec fn normalized(code: Seq<char>) -> Seq<char> {
    strip_padding_seq(upper_of(code))
}

/// What a record keeps of a seed: the seed itself, or its envelope.
pub open spec fn stored_secret(seed: Seq<char>, unencrypt: bool, password: Seq<char>) -> Seq<char> {
    if unencrypt {
        seed
    } else {
        envelope_of(password, seed)
    }
}

/// The record that `add` or `update` creates.
pub open spec fn created_record(
    alias: Seq<char>,
    seed: Seq<char>,
    unencrypt: bool,
    password: Seq<char>,
    now: u64,
) -> RecordView {
    RecordView {
        alias,
        secret: stored_secret(seed, unencrypt, password),
        is_unencrypted: unencrypt,
        algorithm: default_algorithm(),
        created_at: now,
    }
}

/// The code that a seed gives at `now`.
pub open spec fn code_at(seed: Seq<char>, now: u64) -> Seq<char> {
    totp_of(base32_bytes(seed), now / STEP_SECS)
}

/// Why `add` refuses, if it does: checked in this order.
pub open spec fn add_refusal(rs: Seq<RecordView>, alias: Seq<char>, code: Seq<char>) -> Option<
    VaultError,
> {
    if alias.contains(DELIMITER) {
        Some(VaultError::InvalidAlias)
    } else if !accepts_seed(normalized(code)) {
        Some(VaultError::InvalidBase32)
    } else if has_alias(rs, alias) {
        Some(VaultError::AliasAlreadyExists)
    } else {
        None
    }
}

/// The line that `add` appends: it starts a new line where the text does not
/// end with one.
pub open spec fn appended_line(text: Seq<char>, r: RecordView) -> Seq<char> {
    if text.len() > 0 && text.last() != '\n' {
        seq!['\n'] + encode(r) + seq!['\n']
    } else {
        encode(r) + seq!['\n']
    }
}

/// The text of the store after `add`.
pub open spec fn text_after_add(
    text: Seq<char>,
    alias: Seq<char>,
    code: Seq<char>,
    unencrypt: bool,
    password: Seq<char>,
    now: u64,
) -> Seq<char> {
    match add_refusal(records_of(text), alias, code) {
        Some(_) => text,
        None => text + appended_line(
            text,
            created_record(alias, normalized(code), unencrypt, password, now),
        ),
    }
}

/// Why `update_code` refuses, if it does: checked in this order.
pub open spec fn update_refusal(rs: Seq<RecordView>, alias: Seq<char>, code: Seq<char>) -> Option<
    VaultError,
> {
    if !accepts_seed(normalized(code)) {
        Some(VaultError::InvalidBase32)
    } else if !has_alias(rs, alias) {
        Some(VaultError::AliasNotFound)
    } else {
        None
    }
}

/// Why `rename` refuses, if it does: checked in this order.
pub open spec fn rename_refusal(rs: Seq<RecordView>, old: Seq<char>, new: Seq<char>) -> Option<
    VaultError,
> {
    if new.contains(DELIMITER) {
        Some(VaultError::InvalidAlias)
    } else if has_alias(rs, new) {
        Some(VaultError::AliasAlreadyExists)
    } else if !has_alias(rs, old) {
        Some(VaultError::AliasNotFound)
    } else {
        None
    }
}

/// The records after removing `alias`, or why not.
pub open spec fn removal(rs: Seq<RecordView>, alias: Seq<char>) -> Result<Seq<RecordView>, VaultError> {
    if has_alias(rs, alias) {
        Ok(without_alias(rs, alias))
    } else {
        Err(VaultError::AliasNotFound)
    }
}

/// The records after renaming `old` to `new`, or why not.
pub open spec fn renaming(rs: Seq<RecordView>, old: Seq<char>, new: Seq<char>) -> Result<
    Seq<RecordView>,
    VaultError,
> {
    match rename_refusal(rs, old, new) {
        Some(e) => Err(e),
        None => Ok(renamed(rs, old, new)),
    }
}

/// The text that a result of records stands for.
pub open spec fn text_result(r: Result<Seq<RecordView>, VaultError>) -> Result<Seq<char>, VaultError> {
    match r {
        Ok(rs) => Ok(render(rs)),
        Err(e) => Err(e),
    }
}

/// The characters of a result of strings.
pub open spec fn string_result(r: Result<String, VaultError>) -> Result<Seq<char>, VaultError> {
    match r {
        Ok(s) => Ok(s@),
        Err(e) => Err(e),
    }
}

/// The outcome of a successful `add`.
pub struct Added {
    /// What to append to the store's text.
    pub line: String,
    /// The current code of the new seed.
    pub otp: String,
}

/// The outcome of a successful `update_code`.
pub struct Updated {
    /// The new text of the store.
    pub text: String,
    /// The current code of the new seed.
    pub otp: String,
}

/// The outcome of `migrate`.
pub struct Migrated {
    /// The new text of the store.
    pub text: String,
    /// How many records it holds.
    pub count: usize,
}

/// Whether `s` holds `c`.
pub fn holds_char(s: &str, c: char) -> (r: bool)
    ensures
        r == s@.contains(c),
{
    let cs = chars_of(s);
    let mut i: usize = 0;
    while i < cs.len()
        invariant
            i <= cs@.len(),
            cs@ == s@,
            forall|k: int| 0 <= k < i ==> cs@[k] != c,
        decreases cs.len() - i,
    {
        if cs[i] == c {
            return true;
        }
        i = i + 1;
    }
    false
}

/// `s` without its `=` characters.
pub fn strip_padding(s: &str) -> (r: String)
    ensures
        r@ == strip_padding_seq(s@),
{
    let cs = chars_of(s);
    let mut out: Vec<char> = Vec::new();
    let mut i: usize = 0;
    while i < cs.len()
        invariant
            i <= cs@.len(),
            cs@ == s@,
            out@ == strip_padding_seq(cs@.subrange(0, i as int)),
        decreases cs.len() - i,
    {
        proof {
            assert(cs@.subrange(0, i + 1).drop_last() =~= cs@.subrange(0, i as int));
        }
        if cs[i] != '=' {
            out.push(cs[i]);
        }
        i = i + 1;
    }
    assert(cs@.subrange(0, cs@.len() as int) =~= cs@);
    string_of(out.as_slice())
}

/// A seed as the user typed it, upper-cased and without padding.
pub fn normalize_code(code: &str) -> (r: String)
    ensures
        r@ == normalized(code@),
{
    let upper = to_upper(code);
    strip_padding(upper.as_str())
}

/// Whether some record of `records` goes by `alias` (exact match).
pub fn alias_exists(alias: &str, records: &[Record]) -> (r: bool)
    ensures
        r == has_alias(views(records@), alias@),
{
    let wanted = string_of(chars_of(alias).as_slice());
    let mut i: usize = 0;
    while i < records.len()
        invariant
            i <= records@.len(),
            wanted@ == alias@,
            forall|k: int| 0 <= k < i ==> #[trigger] records@[k].alias@ != alias@,
        decreases records.len() - i,
    {
        if records[i].alias == wanted {
            assert(views(records@)[i as int].alias == alias@);
            return true;
        }
        i = i + 1;
    }
    assert forall|k: int| 0 <= k < views(records@).len() implies #[trigger] views(records@)[k].alias
        != alias@ by {
        assert(views(records@)[k] == records@[k]@);
    }
    false
}

/// The record that `add` or `update_code` creates, from a seed already
/// normalized.
fn create_record(alias: &str, seed: &str, unencrypt: bool, password: &str, now: u64) -> (r: Record)
    ensures
        r@ == created_record(alias@, seed@, unencrypt, password@, now),
{
    let secret = if unencrypt {
        string_of(chars_of(seed).as_slice())
    } else {
        encrypt(seed, password)
    };
    Record::created(string_of(chars_of(alias).as_slice()), secret, unencrypt, now)
}

/// Adds a record for `alias` with the seed `code` at time `now`, sealed with
/// `password` unless `unencrypt` holds. The store is left as it is unless the
/// result is `Ok`, whose line the caller appends to it.
pub fn add(text: &str, alias: &str, code: &str, unencrypt: bool, password: &str, now: u64) -> (r:
    Result<Added, VaultError>)
    ensures
        ({
            let rs = records_of(text@);
            let seed = normalized(code@);
            match add_refusal(rs, alias@, code@) {
                Some(e) => r is Err && r->Err_0 == e,
                None => r is Ok && text@ + r->Ok_0.line@ == text_after_add(
                    text@,
                    alias@,
                    code@,
                    unencrypt,
                    password@,
                    now,
                ) && r->Ok_0.otp@ == code_at(seed, now),
            }
        }),
{
    if holds_char(alias, DELIMITER) {
        return Err(VaultError::InvalidAlias);
    }
    let seed = normalize_code(code);
    let otp = match generate_otp(seed.as_str(), now) {
        Ok(c) => c,
        Err(e) => {
            return Err(e);
        },
    };
    let records = parse_store(text);
    if alias_exists(alias, records.as_slice()) {
        return Err(VaultError::AliasAlreadyExists);
    }
    let record = create_record(alias, seed.as_str(), unencrypt, password, now);
    let encoded = chars_of(encode_record(&record).as_str());
    let cs = chars_of(text);
    let mut line: Vec<char> = Vec::new();
    if cs.len() > 0 && cs[cs.len() - 1] != '\n' {
        line.push('\n');
    }
    let mut k: usize = 0;
    let ghost before = line@;
    while k < encoded.len()
        invariant
            k <= encoded@.len(),
            line@ == before + encoded@.subrange(0, k as int),
        decreases encoded.len() - k,
    {
        line.push(encoded[k]);
        k = k + 1;
        assert(line@ =~= before + encoded@.subrange(0, k as int));
    }
    line.push('\n');
    assert(encoded@.subrange(0, encoded@.len() as int) =~= encoded@);
    assert(line@ =~= appended_line(text@, record@));
    Ok(Added { line: string_of(line.as_slice()), otp })
}

/// `records` without those that go by `alias`.
fn drop_alias(records: &[Record], alias: &str) -> (r: Vec<Record>)
    ensures
        views(r@) == without_alias(views(records@), alias@),
{
    let wanted = string_of(chars_of(alias).as_slice());
    let mut out: Vec<Record> = Vec::new();
    let mut i: usize = 0;
    while i < records.len()
        invariant
            i <= records@.len(),
            wanted@ == alias@,
            views(out@) == without_alias(views(records@.subrange(0, i as int)), alias@),
        decreases records.len() - i,
    {
        proof {
            assert(views(records@.subrange(0, i + 1)).drop_last() =~= views(
                records@.subrange(0, i as int),
            ));
            assert(views(records@.subrange(0, i + 1)).last() == records@[i as int]@);
        }
        if records[i].alias != wanted {
            out.push(records[i].duplicate());
            assert(views(out@) =~= without_alias(views(records@.subrange(0, i + 1)), alias@));
        }
        i = i + 1;
    }
    assert(records@.subrange(0, records@.len() as int) =~= records@);
    out
}

/// `records` with each that goes by `old` going by `new` instead.
fn rename_records(records: &[Record], old: &str, new: &str) -> (r: Vec<Record>)
    ensures
        views(r@) == renamed(views(records@), old@, new@),
{
    let wanted = string_of(chars_of(old).as_slice());
    let mut out: Vec<Record> = Vec::new();
    let mut i: usize = 0;
    while i < records.len()
        invariant
            i <= records@.len(),
            wanted@ == old@,
            out@.len() == i,
            forall|k: int|
                0 <= k < i ==> #[trigger] views(out@)[k] == renamed(views(records@), old@, new@)[k],
        decreases records.len() - i,
    {
        let mut rec = records[i].duplicate();
        if rec.alias == wanted {
            rec.alias = string_of(chars_of(new).as_slice());
        }
        proof {
            assert(views(records@)[i as int] == records@[i as int]@);
            assert(rec@ == renamed(views(records@), old@, new@)[i as int]);
        }
        let ghost before = views(out@);
        out.push(rec);
        assert(views(out@) =~= before.push(rec@));
        i = i + 1;
    }
    assert(views(out@) =~= renamed(views(records@), old@, new@));
    out
}

/// Removes the record that goes by `alias`; the result is the new text of
/// the store.
pub fn remove(text: &str, alias: &str) -> (r: Result<String, VaultError>)
    ensures
        string_result(r) == text_result(removal(records_of(text@), alias@)),
{
    let records = parse_store(text);
    if !alias_exists(alias, records.as_slice()) {
        return Err(VaultError::AliasNotFound);
    }
    let kept = drop_alias(records.as_slice(), alias);
    Ok(render_store(kept.as_slice()))
}

/// Replaces the seed of `alias`: its record is removed and a new one, created
/// at `now`, goes at the end of the store.
pub fn update_code(
    text: &str,
    alias: &str,
    code: &str,
    unencrypt: bool,
    password: &str,
    now: u64,
) -> (r: Result<Updated, VaultError>)
    ensures
        ({
            let rs = records_of(text@);
            let seed = normalized(code@);
            match update_refusal(rs, alias@, code@) {
                Some(e) => r is Err && r->Err_0 == e,
                None => r is Ok && r->Ok_0.text@ == render(
                    without_alias(rs, alias@).push(
                        created_record(alias@, seed, unencrypt, password@, now),
                    ),
                ) && r->Ok_0.otp@ == code_at(seed, now),
            }
        }),
{
    let seed = normalize_code(code);
    let otp = match generate_otp(seed.as_str(), now) {
        Ok(c) => c,
        Err(e) => {
            return Err(e);
        },
    };
    let records = parse_store(text);
    if !alias_exists(alias, records.as_slice()) {
        return Err(VaultError::AliasNotFound);
    }
    let mut kept = drop_alias(records.as_slice(), alias);
    let record = create_record(alias, seed.as_str(), unencrypt, password, now);
    let ghost before = views(kept@);
    kept.push(record);
    assert(views(kept@) =~= before.push(record@));
    Ok(Updated { text: render_store(kept.as_slice()), otp })
}

/// Gives the record of `old_alias` the alias `new_alias`, leaving the rest of
/// it as it is; the result is the new text of the store.
pub fn rename(text: &str, old_alias: &str, new_alias: &str) -> (r: Result<String, VaultError>)
    ensures
        string_result(r) == text_result(renaming(records_of(text@), old_alias@, new_alias@)),
{
    if holds_char(new_alias, DELIMITER) {
        return Err(VaultError::InvalidAlias);
    }
    let records = parse_store(text);
    if alias_exists(new_alias, records.as_slice()) {
        return Err(VaultError::AliasAlreadyExists);
    }
    if !alias_exists(old_alias, records.as_slice()) {
        return Err(VaultError::AliasNotFound);
    }
    let changed = rename_records(records.as_slice(), old_alias, new_alias);
    Ok(render_store(changed.as_slice()))
}

/// Writes every record of the store, legacy lines included, in the
/// structured form; lines that hold no record are dropped.
pub fn migrate(text: &str) -> (r: Migrated)
    ensures
        r.text@ == render(records_of(text@)),
        r.count == records_of(text@).len(),
{
    let records = parse_store(text);
    let count = records.len();
    Migrated { text: render_store(records.as_slice()), count }
}

/// Adding an alias that the store already holds fails, whatever the seed,
/// and leaves the text of the store as it was.
pub proof fn law_add_existing_alias_fails(
    text: Seq<char>,
    alias: Seq<char>,
    code: Seq<char>,
    unencrypt: bool,
    password: Seq<char>,
    now: u64,
)
    requires
        has_alias(records_of(text), alias),
    ensures
        add_refusal(records_of(text), alias, code) is Some,
        !alias.contains(DELIMITER) && accepts_seed(normalized(code)) ==> add_refusal(
            records_of(text),
            alias,
            code,
        ) == Some(VaultError::AliasAlreadyExists),
        text_after_add(text, alias, code, unencrypt, password, now) == text,
{
}

proof fn lemma_without_missing(rs: Seq<RecordView>, alias: Seq<char>)
    requires
        !has_alias(rs, alias),
    ensures
        without_alias(rs, alias) == rs,
    decreases rs.len(),
{
    if rs.len() > 0 {
        let p = rs.drop_last();
        assert(!has_alias(p, alias)) by {
            if has_alias(p, alias) {
                let i = choose|i: int| 0 <= i < p.len() && #[trigger] p[i].alias == alias;
                assert(rs[i].alias == alias);
            }
        }
        lemma_without_missing(p, alias);
        assert(rs.last().alias != alias) by {
            assert(rs[rs.len() - 1].alias == rs.last().alias);
        }
        assert(p.push(rs.last()) =~= rs);
    }
}

proof fn lemma_without_present(rs: Seq<RecordView>, alias: Seq<char>)
    requires
        unique_aliases(rs),
        has_alias(rs, alias),
    ensures
        without_alias(rs, alias).len() + 1 == rs.len(),
    decreases rs.len(),
{
    let p = rs.drop_last();
    assert(unique_aliases(p)) by {
        assert forall|i: int, j: int| 0 <= i < j < p.len() implies #[trigger] p[i].alias
            != #[trigger] p[j].alias by {
            assert(rs[i].alias != rs[j].alias);
        }
    }
    if rs.last().alias == alias {
        assert(!has_alias(p, alias)) by {
            if has_alias(p, alias) {
                let i = choose|i: int| 0 <= i < p.len() && #[trigger] p[i].alias == alias;
                assert(rs[i].alias != rs[rs.len() - 1].alias);
            }
        }
        lemma_without_missing(p, alias);
    } else {
        assert(has_alias(p, alias)) by {
            let i = choose|i: int| 0 <= i < rs.len() && #[trigger] rs[i].alias == alias;
            assert(i != rs.len() - 1);
            assert(p[i].alias == alias);
        }
        lemma_without_present(p, alias);
    }
}

/// Removing an alias that the store does not hold fails; removing one that it
/// holds, in a store whose aliases are unique, leaves one record fewer.
pub proof fn law_remove(rs: Seq<RecordView>, alias: Seq<char>)
    ensures
        !has_alias(rs, alias) ==> removal(rs, alias) == Err::<Seq<RecordView>, VaultError>(
            VaultError::AliasNotFound,
        ),
        unique_aliases(rs) && has_alias(rs, alias) ==> removal(rs, alias) is Ok && removal(
            rs,
            alias,
        )->Ok_0.len() + 1 == rs.len(),
{
    if unique_aliases(rs) && has_alias(rs, alias) {
        lemma_without_present(rs, alias);
    }
}

/// Renaming to an alias that the store holds fails; renaming a held alias to
/// a fresh one (without the delimiter) changes that alias and nothing else.
pub proof fn law_rename(rs: Seq<RecordView>, old: Seq<char>, new: Seq<char>)
    ensures
        has_alias(rs, new) ==> renaming(rs, old, new) is Err,
        has_alias(rs, new) && !new.contains(DELIMITER) ==> renaming(rs, old, new) == Err::<
            Seq<RecordView>,
            VaultError,
        >(VaultError::AliasAlreadyExists),
        has_alias(rs, old) && !has_alias(rs, new) && !new.contains(DELIMITER) ==> ({
            let after = renaming(rs, old, new)->Ok_0;
            &&& renaming(rs, old, new) is Ok
            &&& after.len() == rs.len()
            &&& forall|i: int|
                0 <= i < rs.len() ==> {
                    &&& (#[trigger] after[i]).secret == rs[i].secret
                    &&& after[i].is_unencrypted == rs[i].is_unencrypted
                    &&& after[i].algorithm == rs[i].algorithm
                    &&& after[i].created_at == rs[i].created_at
                    &&& after[i].alias == if rs[i].alias == old {
                        new
                    } else {
                        rs[i].alias
                    }
                }
        }),
{
}

/// A successful `add` appends its record to the records of the store and
/// keeps the others; where aliases were unique, they stay unique.
pub proof fn law_add_appends_record(
    text: Seq<char>,
    alias: Seq<char>,
    code: Seq<char>,
    unencrypt: bool,
    password: Seq<char>,
    now: u64,
)
    requires
        add_refusal(records_of(text), alias, code) is None,
    ensures
        records_of(text_after_add(text, alias, code, unencrypt, password, now)) == records_of(
            text,
        ).push(created_record(alias, normalized(code), unencrypt, password, now)),
        unique_aliases(records_of(text)) ==> unique_aliases(
            records_of(text_after_add(text, alias, code, unencrypt, password, now)),
        ),
{
    let r = created_record(alias, normalized(code), unencrypt, password, now);
    let rs = records_of(text);
    assert(text + appended_line(text, r) =~= with_line(text, encode(r)));
    law_append_record(text, r);
    let after = rs.push(r);
    assert forall|i: int, j: int| unique_aliases(rs) && 0 <= i < j < after.len() implies #[trigger] after[i].alias
        != #[trigger] after[j].alias by {
        if j == rs.len() {
            assert(after[i] == rs[i]);
        } else {
            assert(after[i] == rs[i] && after[j] == rs[j]);
        }
    }
}

/// `update_code` keeps the aliases of a store unique: the new record goes by
/// the alias that was removed.
pub proof fn law_update_keeps_aliases_unique(rs: Seq<RecordView>, alias: Seq<char>, r: RecordView)
    requires
        unique_aliases(rs),
        r.alias == alias,
    ensures
        unique_aliases(without_alias(rs, alias).push(r)),
{
    lemma_without_keeps(rs, alias);
    let w = without_alias(rs, alias);
    let after = w.push(r);
    assert forall|i: int, j: int| 0 <= i < j < after.len() implies #[trigger] after[i].alias
        != #[trigger] after[j].alias by {
        if j == w.len() {
            assert(after[i] == w[i]);
        } else {
            assert(after[i] == w[i] && after[j] == w[j]);
        }
    }
}

/// `rename` keeps the aliases of a store unique.
pub proof fn law_rename_keeps_aliases_unique(rs: Seq<RecordView>, old: Seq<char>, new: Seq<char>)
    requires
        unique_aliases(rs),
        renaming(rs, old, new) is Ok,
    ensures
        unique_aliases(renaming(rs, old, new)->Ok_0),
{
    let out = renamed(rs, old, new);
    assert forall|i: int, j: int| 0 <= i < j < out.len() implies #[trigger] out[i].alias
        != #[trigger] out[j].alias by {
        if rs[i].alias == old {
            assert(rs[j].alias != old);
            assert(rs[j].alias != new);
        } else if rs[j].alias == old {
            assert(rs[i].alias != new);
        }
    }
}

/// What stays after removing an alias: unique aliases, none of them `alias`.
proof fn lemma_without_keeps(rs: Seq<RecordView>, alias: Seq<char>)
    requires
        unique_aliases(rs),
    ensures
        unique_aliases(without_alias(rs, alias)),
        forall|i: int|
            0 <= i < without_alias(rs, alias).len() ==> (#[trigger] without_alias(rs, alias)[i]).alias
                != alias,
        forall|i: int|
            0 <= i < without_alias(rs, alias).len() ==> has_alias(
                rs,
                #[trigger] without_alias(rs, alias)[i].alias,
            ),
    decreases rs.len(),
{
    if rs.len() > 0 {
        let p = rs.drop_last();
        assert(unique_aliases(p)) by {
            assert forall|i: int, j: int| 0 <= i < j < p.len() implies #[trigger] p[i].alias
                != #[trigger] p[j].alias by {
                assert(rs[i].alias != rs[j].alias);
            }
        }
        lemma_without_keeps(p, alias);
        let wp = without_alias(p, alias);
        let w = without_alias(rs, alias);
        assert forall|i: int| 0 <= i < wp.len() implies has_alias(rs, #[trigger] wp[i].alias) by {
            assert(has_alias(p, wp[i].alias));
            let k = choose|k: int| 0 <= k < p.len() && #[trigger] p[k].alias == wp[i].alias;
            assert(rs[k].alias == wp[i].alias);
        }
        if rs.last().alias != alias {
            let l = rs.last();
            assert(rs[rs.len() - 1] == l);
            assert forall|i: int| 0 <= i < wp.len() implies (#[trigger] wp[i]).alias != l.alias by {
                let k = choose|k: int| 0 <= k < p.len() && #[trigger] p[k].alias == wp[i].alias;
                assert(rs[k].alias != rs[rs.len() - 1].alias);
            }
            assert forall|i: int, j: int| 0 <= i < j < w.len() implies #[trigger] w[i].alias
                != #[trigger] w[j].alias by {
                if j == wp.len() {
                    assert(w[i] == wp[i]);
                } else {
                    assert(w[i] == wp[i] && w[j] == wp[j]);
                }
            }
            assert forall|i: int| 0 <= i < w.len() implies has_alias(rs, #[trigger] w[i].alias) by {
                if i < wp.len() {
                    assert(w[i] == wp[i]);
                } else {
                    assert(rs[rs.len() - 1].alias == w[i].alias);
                }
            }
        }
    }
}

/// Whether `add` would refuse, checked before anything else is asked of the
/// user (a password, for instance).
pub fn add_check(text: &str, alias: &str, code: &str) -> (r: Result<(), VaultError>)
    ensures
        r is Ok <==> add_refusal(records_of(text@), alias@, code@) is None,
        r matches Err(e) ==> add_refusal(records_of(text@), alias@, code@) == Some(e),
{
    if holds_char(alias, DELIMITER) {
        return Err(VaultError::InvalidAlias);
    }
    let seed = normalize_code(code);
    if decode_seed(seed.as_str()).is_err() {
        return Err(VaultError::InvalidBase32);
    }
    let records = parse_store(text);
    if alias_exists(alias, records.as_slice()) {
        return Err(VaultError::AliasAlreadyExists);
    }
    Ok(())
}

/// Whether `update_code` would refuse, checked before anything else is asked
/// of the user.
pub fn update_check(text: &str, alias: &str, code: &str) -> (r: Result<(), VaultError>)
    ensures
        r is Ok <==> update_refusal(records_of(text@), alias@, code@) is None,
        r matches Err(e) ==> update_refusal(records_of(text@), alias@, code@) == Some(e),
{
    let seed = normalize_code(code);
    if decode_seed(seed.as_str()).is_err() {
        return Err(VaultError::InvalidBase32);
    }
    let records = parse_store(text);
    if !alias_exists(alias, records.as_slice()) {
        return Err(VaultError::AliasNotFound);
    }
    Ok(())
}

/// After a successful `rename`, reading the new text gives the renamed
/// records: the same records in the same order, with `old` now `new`.
pub proof fn law_rename_store(text: Seq<char>, old: Seq<char>, new: Seq<char>)
    requires
        renaming(records_of(text), old, new) is Ok,
    ensures
        records_of(render(renaming(records_of(text), old, new)->Ok_0)) == renamed(
            records_of(text),
            old,
            new,
        ),
{
    crate::store::law_render_round_trip(renamed(records_of(text), old, new));
}

} // verus!
