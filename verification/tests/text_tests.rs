use highscore::numbers::{parse_i64, parse_u128, u128_to_string};
use highscore::password;
use highscore::store_interface::HashedPassword;
use highscore::text::{split_chars, str_eq, str_to_chars, unescape_chars};

fn chars(s: &str) -> Vec<char> {
    s.chars().collect()
}

#[test]
fn decimal_writing() {
    assert_eq!(u128_to_string(0), "0");
    assert_eq!(u128_to_string(105), "105");
    assert_eq!(
        u128_to_string(u128::MAX),
        "340282366920938463463374607431768211455"
    );
}

#[test]
fn decimal_reading() {
    assert_eq!(parse_u128(&chars("0")), Some(0));
    assert_eq!(parse_u128(&chars("007")), Some(7));
    assert_eq!(
        parse_u128(&chars("340282366920938463463374607431768211455")),
        Some(u128::MAX)
    );
    // one past the largest value overflows and is rejected
    assert_eq!(parse_u128(&chars("340282366920938463463374607431768211456")), None);
    assert_eq!(parse_u128(&chars("")), None);
    assert_eq!(parse_u128(&chars("12x")), None);
    assert_eq!(parse_u128(&chars("-3")), None);
}

#[test]
fn signed_reading() {
    assert_eq!(parse_i64(&chars("-9223372036854775808")), Some(i64::MIN));
    assert_eq!(parse_i64(&chars("9223372036854775807")), Some(i64::MAX));
    assert_eq!(parse_i64(&chars("9223372036854775808")), None);
    assert_eq!(parse_i64(&chars("-9223372036854775809")), None);
    assert_eq!(parse_i64(&chars("-0")), Some(0));
    assert_eq!(parse_i64(&chars("-")), None);
}

#[test]
fn string_bridges() {
    let v = str_to_chars("héllo\t∀");
    assert_eq!(v, "héllo\t∀".chars().collect::<Vec<char>>());
    assert!(str_eq("abc", "abc"));
    assert!(!str_eq("abc", "abd"));
    assert!(!str_eq("abc", "ab"));
}

#[test]
fn splitting() {
    let pieces = split_chars(&chars("a\tbb\t\tc"), '\t');
    assert_eq!(pieces.len(), 4);
    assert_eq!(pieces[0], chars("a"));
    assert_eq!(pieces[1], chars("bb"));
    assert_eq!(pieces[2], chars(""));
    assert_eq!(pieces[3], chars("c"));
    assert_eq!(split_chars(&chars(""), '\n').len(), 1);
}

#[test]
fn unescaping_rejects_bad_escapes() {
    assert_eq!(unescape_chars(&chars("a\\z")), None);
    assert_eq!(unescape_chars(&chars("a\\")), None);
    assert_eq!(
        unescape_chars(&chars("a\\tb\\nc\\\\")),
        Some(chars("a\tb\nc\\"))
    );
}

#[test]
fn password_round_trip() {
    let h = HashedPassword::from_plain_password("open sesame");
    assert!(h.verify_plain_password("open sesame"));
    assert!(!h.verify_plain_password("open says me"));
    // the encoded hash survives the trip through the log encoding
    let back = HashedPassword::from_encoded(h.encoded_str().to_string());
    assert!(back.verify_plain_password("open sesame"));
}

#[test]
fn password_free_functions() {
    let encoded = password::hash("pw");
    assert!(password::verify(&encoded, "pw"));
    assert!(!password::verify(&encoded, "pW"));
    // a broken hash never verifies and never errs
    assert!(!password::verify("not a hash", "pw"));
    // a fresh salt gives a fresh encoding
    assert_ne!(password::hash("pw"), encoded);
}

#[test]
fn check_user_against_store() {
    let mut s = highscore::persisted_store::PersistedStore::load("");
    s.upsert_user(
        "ada".to_string(),
        HashedPassword::from_plain_password("lovelace"),
    )
    .unwrap();
    assert!(s.check_user("ada", "lovelace"));
    assert!(!s.check_user("ada", "wrong"));
    assert!(!s.check_user("ghost", "lovelace"));
    // a new password replaces the old one
    s.upsert_user(
        "ada".to_string(),
        HashedPassword::from_plain_password("analytical"),
    )
    .unwrap();
    assert!(s.check_user("ada", "analytical"));
    assert!(!s.check_user("ada", "lovelace"));
}
