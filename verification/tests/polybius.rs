use ciphers::Cipher;
use ciphers::Polybius;

#[test]
fn polybius_encrypt_basic() {
    let cipher = Polybius::new();
    assert_eq!(cipher.encrypt("HELLO"), "2315313134");
}

#[test]
fn polybius_decrypt_basic() {
    let cipher = Polybius::new();
    assert_eq!(cipher.decrypt("2315313134"), "HELLO");
}

#[test]
fn polybius_round_trip() {
    let cipher = Polybius::new();
    let plaintext = "THEQUICKBROWNFOX";
    let encrypted = cipher.encrypt(plaintext);
    assert_eq!(cipher.decrypt(&encrypted), plaintext);
}

#[test]
fn handles_j_as_i() {
    let cipher = Polybius::new();
    assert_eq!(cipher.encrypt("J"), "24");
    assert_eq!(cipher.encrypt("I"), "24");
}

#[test]
fn polybius_preserves_non_alpha() {
    let cipher = Polybius::new();
    let result = cipher.encrypt("A,B.C");
    assert_eq!(result, "11,12.13");
}

#[test]
fn with_separator() {
    let cipher = Polybius::new().with_separator(" ");
    assert_eq!(cipher.encrypt("ABC"), "11 12 13");
}

#[test]
fn decrypt_with_separator() {
    let cipher = Polybius::new().with_separator(" ");
    assert_eq!(cipher.decrypt("11 12 13"), "ABC");
}

#[test]
fn with_key() {
    let cipher = Polybius::with_key("KEYWORD");
    let encrypted = cipher.encrypt("HELLO");
    let decrypted = cipher.decrypt(&encrypted);
    assert_eq!(decrypted, "HELLO");
}

#[test]
fn case_insensitive_input() {
    let cipher = Polybius::new();
    assert_eq!(cipher.encrypt("hello"), cipher.encrypt("HELLO"));
}

#[test]
fn default_impl() {
    let cipher = Polybius::default();
    assert_eq!(cipher.encrypt("A"), "11");
}

#[test]
fn keyed_alphabet_removes_duplicates() {
    let cipher = Polybius::with_key("AAABBBCCC");
    let encrypted = cipher.encrypt("ABC");
    assert_ne!(encrypted, "111111");
}

#[test]
fn full_alphabet_round_trip() {
    let cipher = Polybius::new();
    let plaintext = "ABCDEFGHIKLMNOPQRSTUVWXYZ";
    let encrypted = cipher.encrypt(plaintext);
    let decrypted = cipher.decrypt(&encrypted);
    assert_eq!(decrypted, plaintext);
}

#[test]
fn polybius_custom_alphabet() {
    let cipher = Polybius::with_alphabet("ZYXWVUTSRQPONMLKIHGFEDCBA");
    assert_eq!(cipher.encrypt("Z"), "11");
    assert_eq!(cipher.encrypt("A"), "55");
}

#[test]
fn polybius_bad_alphabet_falls_back() {
    let short = Polybius::with_alphabet("ABC");
    let standard = Polybius::new();
    assert_eq!(short.encrypt("HELLO"), standard.encrypt("HELLO"));
    let repeated = Polybius::with_alphabet("AAAAABBBBBCCCCCDDDDDEEEEE");
    assert_eq!(repeated.encrypt("HELLO"), standard.encrypt("HELLO"));
}

#[test]
fn polybius_dangling_digit_dropped() {
    let cipher = Polybius::new();
    assert_eq!(cipher.decrypt("231"), "H");
}

#[test]
fn polybius_decrypt_interleaved() {
    let cipher = Polybius::new();
    assert_eq!(cipher.decrypt("11,12.13"), "AB,C.");
}

#[test]
fn polybius_decrypt_out_of_range_digits() {
    let cipher = Polybius::new();
    assert_eq!(cipher.decrypt("9911"), "A");
    assert_eq!(cipher.decrypt("01"), "");
}

#[test]
fn polybius_empty_input() {
    let cipher = Polybius::new();
    assert_eq!(cipher.encrypt(""), "");
    assert_eq!(cipher.decrypt(""), "");
}
