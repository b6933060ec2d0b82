use hermes::crypto::{crypt, decrypt, encrypt};
use hermes::error::VaultError;
use hermes::listing::{list_record, needs_password, render_listing, OtpCell, OutputFormat};
use hermes::otp::{decode_seed, generate_otp, remaining_secs};
use hermes::record::Record;
use hermes::store::parse_store;
use hermes::vault::{
    add, add_check, alias_exists, migrate, normalize_code, remove, rename, strip_padding, update_check,
    update_code,
};

const RFC_SEED: &str = "GEZDGNBVGY3TQOJQGEZDGNBVGY3TQOJQ";

#[test]
fn rfc_6238_codes() {
    assert_eq!(generate_otp(RFC_SEED, 59).unwrap(), "287082");
    assert_eq!(generate_otp(RFC_SEED, 1111111109).unwrap(), "081804");
    assert_eq!(generate_otp(RFC_SEED, 1234567890).unwrap(), "005924");
}

#[test]
fn same_step_same_code() {
    let a = generate_otp(RFC_SEED, 60).unwrap();
    let b = generate_otp(RFC_SEED, 89).unwrap();
    let c = generate_otp(RFC_SEED, 90).unwrap();
    assert_eq!(a, b);
    assert_ne!(a, c);
    assert_eq!(generate_otp(RFC_SEED, 60).unwrap(), a);
}

#[test]
fn remaining_seconds() {
    assert_eq!(remaining_secs(0), 30);
    assert_eq!(remaining_secs(59), 1);
    assert_eq!(remaining_secs(61), 29);
}

#[test]
fn base32_validation() {
    assert_eq!(decode_seed("MZXW6").unwrap(), b"foo".to_vec());
    assert_eq!(decode_seed("").unwrap(), Vec::<u8>::new());
    assert!(matches!(decode_seed("MZXW7"), Err(VaultError::InvalidBase32)));
    assert!(matches!(decode_seed("MZX"), Err(VaultError::InvalidBase32)));
    assert!(matches!(decode_seed("mzxw6"), Err(VaultError::InvalidBase32)));
    assert!(matches!(decode_seed("MZXW1"), Err(VaultError::InvalidBase32)));
    assert!(matches!(generate_otp("Ä", 0), Err(VaultError::InvalidBase32)));
}

#[test]
fn code_normalization() {
    assert_eq!(strip_padding("MZ=XW6=="), "MZXW6");
    assert_eq!(normalize_code("mzxw6==="), "MZXW6");
}

#[test]
fn envelope_round_trip() {
    let sealed = encrypt("BQZH47HMIUUQOQVAXO3MCRUP3OGR3OIL", "password");
    assert_ne!(sealed, "BQZH47HMIUUQOQVAXO3MCRUP3OGR3OIL");
    assert_eq!(sealed, encrypt("BQZH47HMIUUQOQVAXO3MCRUP3OGR3OIL", "password"));
    assert_eq!(decrypt(&sealed, "password").unwrap(), "BQZH47HMIUUQOQVAXO3MCRUP3OGR3OIL");
    assert!(matches!(decrypt(&sealed, "password "), Err(VaultError::DecryptionFailed)));
    assert!(matches!(decrypt(&sealed, " password"), Err(VaultError::DecryptionFailed)));
    assert!(matches!(decrypt(&sealed, "other"), Err(VaultError::DecryptionFailed)));
    assert!(matches!(decrypt("not base64 at all!", "password"), Err(VaultError::DecryptionFailed)));
    assert_eq!(crypt(false, &crypt(true, "ABC", "pw").unwrap(), "pw").unwrap(), "ABC");
}

#[test]
fn add_errors() {
    assert!(matches!(add("", "a:b", "MZXW6", true, "", 0), Err(VaultError::InvalidAlias)));
    assert!(matches!(add("", "a", "MZXW1", true, "", 0), Err(VaultError::InvalidBase32)));
    assert!(matches!(add("", "a:b", "MZXW1", true, "", 0), Err(VaultError::InvalidAlias)));
}

#[test]
fn add_to_text_without_final_newline() {
    let text = "github:JBSWY3DP:1:sha1";
    let a = add(text, "x", "MZXW6", true, "", 1).unwrap();
    assert!(a.line.starts_with('\n'));
    let store = format!("{}{}", text, a.line);
    assert_eq!(parse_store(&store).len(), 2);
}

#[test]
fn remove_missing_alias_fails() {
    let a = add("", "one", "MZXW6", true, "", 1).unwrap();
    assert!(matches!(remove(&a.line, "two"), Err(VaultError::AliasNotFound)));
    assert!(matches!(remove(&a.line, "ONE"), Err(VaultError::AliasNotFound)));
}

#[test]
fn remove_takes_one_record() {
    let mut store = String::new();
    for alias in ["a", "b", "c"] {
        let added = add(&store, alias, "MZXW6", true, "", 1).unwrap();
        store.push_str(&added.line);
    }
    let after = remove(&store, "b").unwrap();
    let records = parse_store(&after);
    assert_eq!(records.len(), 2);
    assert_eq!(records[0].alias, "a");
    assert_eq!(records[1].alias, "c");
}

#[test]
fn rename_keeps_the_rest() {
    let store = add("", "old", "MZXW6", false, "pw", 42).unwrap().line;
    let before = &parse_store(&store)[0];
    let after_text = rename(&store, "old", "new").unwrap();
    let after = &parse_store(&after_text)[0];
    assert_eq!(after.alias, "new");
    assert_eq!(after.secret, before.secret);
    assert_eq!(after.is_unencrypted, before.is_unencrypted);
    assert_eq!(after.algorithm, before.algorithm);
    assert_eq!(after.created_at, before.created_at);
    assert!(matches!(rename(&store, "old", "a:b"), Err(VaultError::InvalidAlias)));
    assert!(matches!(rename(&store, "missing", "x"), Err(VaultError::AliasNotFound)));
    assert!(matches!(rename(&store, "old", "old"), Err(VaultError::AliasAlreadyExists)));
}

#[test]
fn update_errors() {
    let store = add("", "one", "MZXW6", true, "", 1).unwrap().line;
    assert!(matches!(update_code(&store, "one", "MZXW1", true, "", 2), Err(VaultError::InvalidBase32)));
    assert!(matches!(update_code(&store, "two", "MZXW6", true, "", 2), Err(VaultError::AliasNotFound)));
}

#[test]
fn migrate_converts_and_is_idempotent() {
    let text = "github:JBSWY3DP:1:sha1\ngarbage\n\nbank:sealed==:0:sha1\n";
    let once = migrate(text);
    assert_eq!(once.count, 2);
    assert_eq!(
        once.text,
        "{\"alias\":\"github\",\"secret\":\"JBSWY3DP\",\"is_unencrypted\":true,\"algorithm\":\"sha1\",\"created_at\":0}\n{\"alias\":\"bank\",\"secret\":\"sealed==\",\"is_unencrypted\":false,\"algorithm\":\"sha1\",\"created_at\":0}\n"
    );
    let twice = migrate(&once.text);
    assert_eq!(twice.text, once.text);
    assert_eq!(twice.count, 2);
    assert_eq!(migrate("").count, 0);
}

#[test]
fn alias_lookup_is_exact() {
    let records = parse_store("github:X:1:sha1\n");
    assert!(alias_exists("github", &records));
    assert!(!alias_exists("GitHub", &records));
    assert!(!alias_exists("git", &records));
}

#[test]
fn listing_cells_and_password_need() {
    let plain = Record::created("p".to_string(), "MZXW6".to_string(), true, 9);
    let bad = Record::created("b".to_string(), "MZXW1".to_string(), true, 9);
    assert!(matches!(list_record(&plain, None, 0).otp, OtpCell::Code(_)));
    assert!(matches!(list_record(&bad, None, 0).otp, OtpCell::InvalidSecret));
    let store = add("", "s", "MZXW6", false, "pw", 1).unwrap().line;
    assert!(needs_password(&store, None));
    assert!(!needs_password("p:MZXW6:1:sha1\n", None));
    let rows = vec![list_record(&bad, None, 0)];
    assert_eq!(render_listing(&rows, OutputFormat::Table, true), "Error: invalid Base32\n");
    assert_eq!(
        render_listing(&rows, OutputFormat::Table, false),
        "Alias           | OTP            \nb               | Error: invalid Base32\n"
    );
    assert_eq!(
        render_listing(&rows, OutputFormat::Json, false),
        "[{\"alias\":\"b\",\"otp\":\"Error: invalid Base32\",\"remaining_secs\":30,\"is_encrypted\":false,\"created_at\":9}]"
    );
    assert_eq!(render_listing(&[], OutputFormat::Json, false), "[]");
}

#[test]
fn record_new_uses_defaults() {
    let r = Record::new("a".to_string(), "B".to_string(), true);
    assert_eq!(r.algorithm, "sha1");
    assert!(r.created_at > 1_600_000_000);
    let copy = r.duplicate();
    assert_eq!(copy.alias, "a");
}

#[test]
fn error_messages() {
    assert!(VaultError::AliasNotFound.message().contains("Alias not found"));
    assert!(VaultError::AliasAlreadyExists.message().contains("already exists"));
    assert!(VaultError::StoreNotFound.message().contains("hermes add"));
    assert_eq!(VaultError::DecryptionFailed.message(), "Error: cannot decrypt");
}

#[test]
fn checks_before_asking_for_a_password() {
    let store = add("", "one", "MZXW6", true, "", 1).unwrap().line;
    assert!(add_check(&store, "two", "mzxw6").is_ok());
    assert!(matches!(add_check(&store, "one", "MZXW6"), Err(VaultError::AliasAlreadyExists)));
    assert!(matches!(add_check(&store, "a:b", "MZXW6"), Err(VaultError::InvalidAlias)));
    assert!(matches!(add_check(&store, "two", "MZXW1"), Err(VaultError::InvalidBase32)));
    assert!(update_check(&store, "one", "MZXW6").is_ok());
    assert!(matches!(update_check(&store, "two", "MZXW6"), Err(VaultError::AliasNotFound)));
    assert!(matches!(update_check(&store, "one", "MZXW1"), Err(VaultError::InvalidBase32)));
}
