use ciphers::Cipher;
use ciphers::Xor;

#[test]
fn xor_symmetric() {
    let cipher = Xor::with_str_key("KEY");
    let original = "Hello";
    let encrypted = cipher.encrypt(original);
    let decrypted = cipher.decrypt(&encrypted);
    assert_eq!(decrypted, original);
}

#[test]
fn single_byte_key() {
    let cipher = Xor::new(&[0x20]);
    assert_eq!(cipher.encrypt("HELLO"), "hello");
    assert_eq!(cipher.encrypt("hello"), "HELLO");
}

#[test]
fn xor_empty_key_passthrough() {
    let cipher = Xor::new(&[]);
    assert_eq!(cipher.encrypt("Hello"), "Hello");
}

#[test]
fn transform_bytes() {
    let cipher = Xor::new(&[0xFF]);
    let input = vec![0x00, 0x0F, 0xF0];
    let output = cipher.transform_bytes(&input);
    assert_eq!(output, vec![0xFF, 0xF0, 0x0F]);
}

#[test]
fn xor_bytes_round_trip() {
    let cipher = Xor::new(&[0xAB, 0x13, 0x7F]);
    let input = vec![0x00, 0x41, 0xFF, 0x10, 0x99];
    let once = cipher.transform_bytes(&input);
    let twice = cipher.transform_bytes(&once);
    assert_eq!(twice, input);
}

#[test]
fn xor_bytes_empty_key_passthrough() {
    let cipher = Xor::new(&[]);
    let input = vec![1u8, 2, 3];
    assert_eq!(cipher.transform_bytes(&input), input);
}
