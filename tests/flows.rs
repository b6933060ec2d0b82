use hermes::codec::encode_record;
use hermes::error::VaultError;
use hermes::listing::{ls, render_json, render_table, OtpCell};
use hermes::store::parse_store;
use hermes::vault::{add, remove, rename, update_code};

const CODE: &str = "BQZH47HMIUUQOQVAXO3MCRUP3OGR3OIL";
const ALIAS: &str = "test_simple";
const PASSWORD: &str = "password";
const NOW: u64 = 1_700_000_000;

fn added(store: &str, alias: &str, code: &str, unencrypt: bool, password: &str) -> String {
    let a = add(store, alias, code, unencrypt, password, NOW).expect("add succeeds");
    assert_eq!(a.otp.len(), 6);
    assert!(a.otp.chars().all(|c| c.is_ascii_digit()));
    format!("{}{}", store, a.line)
}

fn six_digits(s: &str) -> bool {
    s.len() == 6 && s.chars().all(|c| c.is_ascii_digit())
}

#[test]
fn add_new_code() {
    let store = added("", "test", "BQZH47HMIUUQOQVAXO3MCRUP3OGR3OIL", true, "");
    let records = parse_store(&store);
    assert_eq!(records.len(), 1);
    assert_eq!(records[0].alias, "test");
    assert_eq!(records[0].secret, "BQZH47HMIUUQOQVAXO3MCRUP3OGR3OIL");
    assert!(records[0].is_unencrypted);
    assert_eq!(records[0].algorithm, "sha1");
    assert_eq!(records[0].created_at, NOW);
}

#[test]
fn add_same_alias_twice_fails() {
    let store = added("", "test", "BQZH47HMIUUQOQVAXO3MCRUP3OGR3OIL", true, "");
    let again = add(&store, "test", "BQZH47HMIUUQOQVAXO3MCRUP3OGR3OIL", true, "", NOW);
    assert!(matches!(again, Err(VaultError::AliasAlreadyExists)));
    assert_eq!(parse_store(&store).len(), 1);
}

#[test]
fn add_remove_isolated_flow() {
    let store = added("", ALIAS, CODE, false, PASSWORD);
    assert_eq!(parse_store(&store).len(), 1);
    let after = remove(&store, ALIAS).expect("remove succeeds");
    assert_eq!(after, "");
    assert_eq!(parse_store(&after).len(), 0);
}

#[test]
fn add_update_remove_isolated_flow() {
    let alias = "test_update";
    let store = added("", alias, CODE, false, PASSWORD);
    let updated = update_code(&store, alias, CODE, false, PASSWORD, NOW + 60).expect("update");
    assert!(six_digits(&updated.otp));
    let records = parse_store(&updated.text);
    assert_eq!(records.len(), 1);
    assert_eq!(records[0].alias, alias);
    assert_eq!(records[0].created_at, NOW + 60);
    let after = remove(&updated.text, alias).expect("remove succeeds");
    assert_eq!(parse_store(&after).len(), 0);
}

#[test]
fn rename_alias_isolated_flow() {
    let store = added("", "github", CODE, false, PASSWORD);
    let store = added(&store, "google", CODE, false, PASSWORD);
    let store = rename(&store, "github", "gh").expect("rename succeeds");

    let gh = ls(&store, Some("gh"), Some(PASSWORD), NOW).expect("gh is listed");
    assert_eq!(gh.len(), 1);
    let table = render_table(&gh, true);
    assert_eq!(table.len(), 7);
    assert!(six_digits(&table[..6]));

    let github = ls(&store, Some("github"), Some(PASSWORD), NOW);
    assert!(matches!(github, Err(VaultError::AliasNotFound)));

    let collision = rename(&store, "gh", "google");
    assert!(matches!(collision, Err(VaultError::AliasAlreadyExists)));
}

#[test]
fn ls_partial_search_isolated() {
    let store = added("", "google", CODE, false, PASSWORD);
    let store = added(&store, "goodreads", CODE, false, PASSWORD);
    let store = added(&store, "github", CODE, false, PASSWORD);

    let rows = ls(&store, Some("goo"), Some(PASSWORD), NOW).expect("goo matches");
    let table = render_table(&rows, true);
    assert!(table.contains("google"));
    assert!(table.contains("goodreads"));
    assert_eq!(table.matches("github").count(), 0);

    assert!(ls(&store, Some("no_match"), Some(PASSWORD), NOW).is_err());
}

#[test]
fn ls_filter_ignores_case() {
    let store = added("", "Google", CODE, true, "");
    let store = added(&store, "github", CODE, true, "");
    let rows = ls(&store, Some("gOO"), None, NOW).expect("matches ignoring case");
    assert_eq!(rows.len(), 1);
    assert_eq!(rows[0].alias, "Google");
    let all = ls(&store, None, None, NOW).expect("no filter");
    assert_eq!(all.len(), 2);
    assert_eq!(ls("", None, None, NOW).expect("empty store").len(), 0);
}

#[test]
fn ls_json_format_isolated() {
    let store = added("", "apple", CODE, false, PASSWORD);
    let store = added(&store, "banana", CODE, false, PASSWORD);
    let rows = ls(&store, None, Some(PASSWORD), NOW).expect("listing");
    let out = render_json(&rows);

    let json: serde_json::Value = serde_json::from_str(&out).expect("valid JSON");
    assert!(json.is_array(), "Output should be a JSON array");
    let array = json.as_array().unwrap();
    assert_eq!(array.len(), 2, "Should contain exactly 2 records");
    let first_record = &array[0];
    assert!(first_record.get("alias").is_some(), "Record missing 'alias' field");
    for key in ["otp", "remaining_secs", "is_encrypted", "created_at"] {
        assert!(first_record.get(key).is_some());
    }
    let has_apple = array.iter().any(|r| r["alias"] == "apple");
    assert!(has_apple, "JSON output missing 'apple' alias");
    assert_eq!(array[1]["is_encrypted"], true);
    assert_eq!(array[1]["remaining_secs"], 10);
}

#[test]
fn ls_with_wrong_password_marks_rows() {
    let store = added("", "apple", CODE, false, PASSWORD);
    let rows = ls(&store, None, Some("not the password"), NOW).expect("listing");
    assert_eq!(rows.len(), 1);
    assert!(matches!(rows[0].otp, OtpCell::DecryptionFailed));
    let locked = ls(&store, None, None, NOW).expect("listing");
    assert!(matches!(locked[0].otp, OtpCell::Locked));
    let table = render_table(&locked, false);
    assert!(table.contains("Cannot decrypt - provide a password"));
}

#[test]
fn encrypted_and_plain_rows_give_the_same_code() {
    let store = added("", "plain", CODE, true, "");
    let store = added(&store, "sealed", CODE, false, PASSWORD);
    let rows = ls(&store, None, Some(PASSWORD), NOW).expect("listing");
    match (&rows[0].otp, &rows[1].otp) {
        (OtpCell::Code(a), OtpCell::Code(b)) => assert_eq!(a, b),
        _ => panic!("both rows have codes"),
    }
    assert!(!rows[0].is_encrypted);
    assert!(rows[1].is_encrypted);
}

#[test]
fn added_line_is_the_structured_form() {
    let a = add("", "x", "mzxw6===", true, "", 5).expect("add succeeds");
    assert_eq!(
        a.line,
        "{\"alias\":\"x\",\"secret\":\"MZXW6\",\"is_unencrypted\":true,\"algorithm\":\"sha1\",\"created_at\":5}\n"
    );
    let records = parse_store(&a.line);
    assert_eq!(encode_record(&records[0]), a.line.trim_end());
}
