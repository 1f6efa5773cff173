use ciphers::Caesar;
use ciphers::Cipher;

#[test]
fn encrypt_shift_3() {
    let cipher = Caesar::new(3);
    assert_eq!(cipher.encrypt("ABC"), "DEF");
    assert_eq!(cipher.encrypt("XYZ"), "ABC");
    assert_eq!(cipher.encrypt("Hello"), "Khoor");
}

#[test]
fn decrypt_shift_3() {
    let cipher = Caesar::new(3);
    assert_eq!(cipher.decrypt("DEF"), "ABC");
    assert_eq!(cipher.decrypt("ABC"), "XYZ");
    assert_eq!(cipher.decrypt("Khoor"), "Hello");
}

#[test]
fn caesar_roundtrip() {
    let cipher = Caesar::new(13);
    let original = "The Quick Brown Fox";
    let encrypted = cipher.encrypt(original);
    let decrypted = cipher.decrypt(&encrypted);
    assert_eq!(decrypted, original);
}

#[test]
fn rot13() {
    let cipher = Caesar::rot13();
    assert_eq!(cipher.encrypt("Hello"), "Uryyb");
    assert_eq!(cipher.encrypt("Uryyb"), "Hello");
}

#[test]
fn caesar_preserves_non_alpha() {
    let cipher = Caesar::new(5);
    assert_eq!(cipher.encrypt("Hello, World! 123"), "Mjqqt, Btwqi! 123");
}

#[test]
fn negative_shift() {
    let cipher = Caesar::new(-3);
    assert_eq!(cipher.encrypt("DEF"), "ABC");
}

#[test]
fn caesar_wrapping_shift() {
    let cipher = Caesar::new(52);
    assert_eq!(cipher.encrypt("Wrap"), "Wrap");
    let cipher = Caesar::new(27);
    assert_eq!(cipher.encrypt("abz"), "bca");
}

#[test]
fn caesar_empty_input() {
    let cipher = Caesar::new(3);
    assert_eq!(cipher.encrypt(""), "");
    assert_eq!(cipher.decrypt(""), "");
}
