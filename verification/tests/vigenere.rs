use ciphers::Cipher;
use ciphers::Vigenere;

#[test]
fn vigenere_encrypt_basic() {
    let cipher = Vigenere::new("KEY");
    assert_eq!(cipher.encrypt("HELLO"), "RIJVS");
}

#[test]
fn vigenere_decrypt_basic() {
    let cipher = Vigenere::new("KEY");
    assert_eq!(cipher.decrypt("RIJVS"), "HELLO");
}

#[test]
fn vigenere_roundtrip() {
    let cipher = Vigenere::new("SECRET");
    let original = "The Quick Brown Fox";
    let encrypted = cipher.encrypt(original);
    let decrypted = cipher.decrypt(&encrypted);
    assert_eq!(decrypted, original);
}

#[test]
fn vigenere_preserves_case() {
    let cipher = Vigenere::new("ABC");
    let result = cipher.encrypt("Hello World");
    assert_eq!(result, "Hfnlp Yosnd");
}

#[test]
fn vigenere_empty_key_passthrough() {
    let cipher = Vigenere::new("");
    assert_eq!(cipher.encrypt("Hello"), "Hello");
}

#[test]
fn vigenere_key_ignores_non_letters() {
    let with_noise = Vigenere::new("k3e-y!");
    let plain = Vigenere::new("KEY");
    assert_eq!(with_noise.encrypt("HELLO"), plain.encrypt("HELLO"));
}

#[test]
fn vigenere_cursor_skips_non_letters() {
    let cipher = Vigenere::new("KEY");
    assert_eq!(cipher.encrypt("HE LLO"), "RI JVS");
}

#[test]
fn vigenere_empty_input() {
    let cipher = Vigenere::new("KEY");
    assert_eq!(cipher.encrypt(""), "");
}
