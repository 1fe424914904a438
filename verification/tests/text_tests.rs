use blockchain::digest::hash_text;
use blockchain::text::{count_char_in, decimal_string, lower_hex_string};

#[test]
fn decimal_renders_like_to_string() {
    assert_eq!(decimal_string(0), "0");
    assert_eq!(decimal_string(7), "7");
    assert_eq!(decimal_string(10), "10");
    assert_eq!(decimal_string(1234567890), "1234567890");
    assert_eq!(decimal_string(u64::MAX as u128), u64::MAX.to_string());
    assert_eq!(decimal_string(u128::MAX), u128::MAX.to_string());
}

#[test]
fn lower_hex_two_digits_per_byte() {
    assert_eq!(lower_hex_string(&[]), "");
    assert_eq!(lower_hex_string(&[0x0a, 0xff, 0x00, 0x10]), "0aff0010");
}

#[test]
fn count_char_counts_occurrences() {
    assert_eq!(count_char_in("", '1'), 0);
    assert_eq!(count_char_in("1a11b1", '1'), 4);
    assert_eq!(count_char_in("é1é", 'é'), 2);
}

#[test]
fn hash_text_is_sha256_hex() {
    assert_eq!(
        hash_text("abc"),
        "ba7816bf8f01cfea414140de5dae2223b00361a396177a9cb410ff61f20015ad"
    );
    assert_eq!(
        hash_text(""),
        "e3b0c44298fc1c149afbf4c8996fb92427ae41e4649b934ca495991b7852b855"
    );
    assert_eq!(hash_text("héllo").len(), 64);
}
