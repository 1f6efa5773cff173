use ciphers::Affine;
use ciphers::Cipher;
use ciphers::mod_inverse;

#[test]
fn affine_encrypt_basic() {
    let cipher = Affine::new(5, 8).unwrap();
    assert_eq!(cipher.encrypt("HELLO"), "RCLLA");
}

#[test]
fn affine_decrypt_basic() {
    let cipher = Affine::new(5, 8).unwrap();
    assert_eq!(cipher.decrypt("RCLLA"), "HELLO");
}

#[test]
fn affine_round_trip() {
    let cipher = Affine::new(7, 3).unwrap();
    let plaintext = "The Quick Brown Fox";
    let encrypted = cipher.encrypt(plaintext);
    assert_eq!(cipher.decrypt(&encrypted), plaintext);
}

#[test]
fn affine_preserves_case() {
    let cipher = Affine::new(5, 8).unwrap();
    let result = cipher.encrypt("HeLLo");
    assert_eq!(result, "RcLLa");
}

#[test]
fn affine_preserves_non_alpha() {
    let cipher = Affine::new(5, 8).unwrap();
    assert_eq!(cipher.encrypt("Hello, World! 123"), "Rclla, Oaplx! 123");
}

#[test]
fn invalid_key_a() {
    assert!(Affine::new(2, 5).is_none());
    assert!(Affine::new(4, 5).is_none());
    assert!(Affine::new(6, 5).is_none());
    assert!(Affine::new(8, 5).is_none());
    assert!(Affine::new(10, 5).is_none());
    assert!(Affine::new(12, 5).is_none());
    assert!(Affine::new(13, 5).is_none());
    assert!(Affine::new(14, 5).is_none());
}

#[test]
fn valid_keys() {
    for a in [1, 3, 5, 7, 9, 11, 15, 17, 19, 21, 23, 25] {
        assert!(Affine::new(a, 0).is_some(), "a={} should be valid", a);
    }
}

#[test]
fn caesar_special_case() {
    let affine = Affine::caesar(3);
    assert_eq!(affine.encrypt("ABC"), "DEF");
    assert_eq!(affine.decrypt("DEF"), "ABC");
}

#[test]
fn rot13_special_case() {
    let cipher = Affine::rot13();
    assert_eq!(cipher.encrypt("HELLO"), "URYYB");
    assert_eq!(cipher.encrypt("URYYB"), "HELLO");
}

#[test]
fn negative_keys() {
    let cipher = Affine::new(-1, -1).unwrap();
    let plaintext = "TEST";
    let encrypted = cipher.encrypt(plaintext);
    assert_eq!(cipher.decrypt(&encrypted), plaintext);
}

#[test]
fn mod_inverse_correctness() {
    assert_eq!(mod_inverse(5, 26), Some(21));
    assert_eq!(mod_inverse(7, 26), Some(15));
    assert_eq!(mod_inverse(2, 26), None);
}

#[test]
fn affine_identity_keys() {
    let cipher = Affine::new(1, 0).unwrap();
    assert_eq!(cipher.encrypt("Hello, World!"), "Hello, World!");
    assert_eq!(cipher.decrypt("Hello, World!"), "Hello, World!");
}

#[test]
fn affine_empty_input() {
    let cipher = Affine::new(5, 8).unwrap();
    assert_eq!(cipher.encrypt(""), "");
    assert_eq!(cipher.decrypt(""), "");
}
