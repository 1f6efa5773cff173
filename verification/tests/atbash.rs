use ciphers::Atbash;
use ciphers::Cipher;

#[test]
fn basic_transform() {
    let cipher = Atbash::new();
    assert_eq!(cipher.encrypt("ABC"), "ZYX");
    assert_eq!(cipher.encrypt("XYZ"), "CBA");
}

#[test]
fn atbash_symmetric() {
    let cipher = Atbash::new();
    let original = "Hello World";
    let encrypted = cipher.encrypt(original);
    let decrypted = cipher.decrypt(&encrypted);
    assert_eq!(decrypted, original);
}

#[test]
fn atbash_preserves_case() {
    let cipher = Atbash::new();
    assert_eq!(cipher.encrypt("AbCdEf"), "ZyXwVu");
}

#[test]
fn atbash_preserves_non_alpha() {
    let cipher = Atbash::new();
    assert_eq!(cipher.encrypt("Hello, World! 123"), "Svool, Dliow! 123");
}

#[test]
fn atbash_encrypt_equals_decrypt() {
    let cipher = Atbash::new();
    let input = "Mixed CASE with 42 symbols!?";
    assert_eq!(cipher.encrypt(input), cipher.decrypt(input));
}

#[test]
fn atbash_empty_input() {
    let cipher = Atbash::new();
    assert_eq!(cipher.encrypt(""), "");
}
