use hermes::codec::{decode_legacy, decode_structured, encode_record, split_chars};
use hermes::record::Record;
use hermes::store::{decode_line, parse_line, parse_store, render_store, LineForm};
use hermes::text::contains_str;

fn chars_of(s: &str) -> Vec<char> {
    s.chars().collect()
}

fn record(alias: &str, secret: &str, plain: bool, at: u64) -> Record {
    Record::created(alias.to_string(), secret.to_string(), plain, at)
}

#[test]
fn structured_line_round_trip() {
    let r = record("a\"b\\c\nd\u{1}é", "SECRET", false, 1234567890);
    let line = encode_record(&r);
    assert_eq!(
        line,
        "{\"alias\":\"a\\\"b\\\\c\\u000ad\\u0001é\",\"secret\":\"SECRET\",\"is_unencrypted\":false,\"algorithm\":\"sha1\",\"created_at\":1234567890}"
    );
    let parsed: serde_json::Value = serde_json::from_str(&line).expect("valid JSON");
    assert_eq!(parsed["alias"], "a\"b\\c\nd\u{1}é");
    let back = decode_structured(&chars_of(&line)).expect("decodes");
    assert_eq!(back.alias, r.alias);
    assert_eq!(back.secret, r.secret);
    assert_eq!(back.is_unencrypted, r.is_unencrypted);
    assert_eq!(back.algorithm, r.algorithm);
    assert_eq!(back.created_at, r.created_at);
}

#[test]
fn structured_line_largest_timestamp() {
    let r = record("x", "Y", true, u64::MAX);
    let line = encode_record(&r);
    assert!(line.ends_with("\"created_at\":18446744073709551615}"));
    assert_eq!(decode_structured(&chars_of(&line)).unwrap().created_at, u64::MAX);
    let over = line.replace("18446744073709551615", "18446744073709551616");
    assert!(decode_structured(&chars_of(&over)).is_none());
    let zero_led = line.replace("18446744073709551615", "07");
    assert!(decode_structured(&chars_of(&zero_led)).is_none());
}

#[test]
fn legacy_line_is_read() {
    let r = decode_legacy(&chars_of("github:JBSWY3DP:1:sha1")).expect("legacy");
    assert_eq!(r.alias, "github");
    assert_eq!(r.secret, "JBSWY3DP");
    assert!(r.is_unencrypted);
    assert_eq!(r.algorithm, "sha1");
    assert_eq!(r.created_at, 0);
    let sealed = decode_legacy(&chars_of("bank:abc==:0:sha1:extra")).expect("legacy");
    assert!(!sealed.is_unencrypted);
    assert!(decode_legacy(&chars_of("only:three:fields")).is_none());
}

#[test]
fn line_forms() {
    assert!(matches!(decode_line("   \t "), LineForm::Blank));
    assert!(matches!(decode_line("# a comment"), LineForm::Unparseable));
    assert!(matches!(decode_line("a:b:1:sha1\r"), LineForm::Legacy(_)));
    let line = encode_record(&record("k", "V", true, 3));
    assert!(matches!(decode_line(&format!("  {}  ", line)), LineForm::Structured(_)));
    assert!(parse_line("").is_none());
    assert!(matches!(decode_line("{\"alias\": \"x\", \"secret\": \"y\"}"), LineForm::Unparseable));
    assert!(parse_line("{a:b:1:sha1").is_none());
}

#[test]
fn store_skips_lines_without_records() {
    let text = "github:JBSWY3DP:1:sha1\n\nnot a record\n{\"alias\":\"k\",\"secret\":\"V\",\"is_unencrypted\":true,\"algorithm\":\"sha1\",\"created_at\":3}";
    let records = parse_store(text);
    assert_eq!(records.len(), 2);
    assert_eq!(records[0].alias, "github");
    assert_eq!(records[1].alias, "k");
    let rendered = render_store(&records);
    assert_eq!(rendered.lines().count(), 2);
    assert!(rendered.ends_with('\n'));
}

#[test]
fn split_keeps_empty_pieces() {
    let pieces = split_chars(&chars_of("a::b:"), ':');
    let pieces: Vec<String> = pieces.iter().map(|p| p.iter().collect()).collect();
    assert_eq!(pieces, vec!["a", "", "b", ""]);
}

#[test]
fn substring_search() {
    assert!(contains_str("goodreads", "odr"));
    assert!(contains_str("abc", ""));
    assert!(!contains_str("abc", "abcd"));
    assert!(!contains_str("github", "goo"));
}
