use ciphers::Cipher;
use ciphers::MagicSquare;
use ciphers::Planet;

#[test]
fn saturn_encrypt_basic() {
    let cipher = MagicSquare::saturn();
    // A=1, which is at position (2,3) in the Saturn square
    assert_eq!(cipher.encrypt("A"), "2,3");
}

#[test]
fn saturn_round_trip() {
    let cipher = MagicSquare::saturn();
    let plaintext = "ABCDEFGHI";
    let encrypted = cipher.encrypt(plaintext);
    assert_eq!(cipher.decrypt(&encrypted), plaintext);
}

#[test]
fn jupiter_round_trip() {
    let cipher = MagicSquare::jupiter();
    let plaintext = "ABCDEFGHIJKLMNOP";
    let encrypted = cipher.encrypt(plaintext);
    assert_eq!(cipher.decrypt(&encrypted), plaintext);
}

#[test]
fn mars_round_trip() {
    let cipher = MagicSquare::mars();
    let plaintext = "ABCDEFGHIJKLMNOPQRSTUVWXY";
    let encrypted = cipher.encrypt(plaintext);
    assert_eq!(cipher.decrypt(&encrypted), plaintext);
}

#[test]
fn sun_round_trip() {
    let cipher = MagicSquare::sun();
    let plaintext = "ABCDEFGHIJKLMNOPQRSTUVWXYZ";
    let encrypted = cipher.encrypt(plaintext);
    assert_eq!(cipher.decrypt(&encrypted), plaintext);
}

#[test]
fn venus_round_trip() {
    let cipher = MagicSquare::venus();
    let plaintext = "HELLO";
    let encrypted = cipher.encrypt(plaintext);
    assert_eq!(cipher.decrypt(&encrypted), plaintext);
}

#[test]
fn mercury_round_trip() {
    let cipher = MagicSquare::mercury();
    let plaintext = "THEQUICKBROWNFOX";
    let encrypted = cipher.encrypt(plaintext);
    assert_eq!(cipher.decrypt(&encrypted), plaintext);
}

#[test]
fn moon_round_trip() {
    let cipher = MagicSquare::moon();
    let plaintext = "JUMPSOVERTHELAZYDOG";
    let encrypted = cipher.encrypt(plaintext);
    assert_eq!(cipher.decrypt(&encrypted), plaintext);
}

#[test]
fn letter_out_of_range() {
    let cipher = MagicSquare::saturn();
    let result = cipher.encrypt("Z");
    assert_eq!(result, "Z");
}

#[test]
fn magic_square_preserves_non_alpha() {
    let cipher = MagicSquare::mars();
    let result = cipher.encrypt("A, B!");
    assert!(result.contains(','));
    assert!(result.contains('!'));
}

#[test]
fn custom_separator() {
    let cipher = MagicSquare::saturn().with_separator("-");
    let encrypted = cipher.encrypt("AB");
    assert!(encrypted.contains('-'));
    assert_eq!(cipher.decrypt(&encrypted), "AB");
}

#[test]
fn custom_coord_separator() {
    let cipher = MagicSquare::saturn().with_coord_separator(".");
    let encrypted = cipher.encrypt("A");
    assert!(encrypted.contains('.'));
    assert_eq!(cipher.decrypt(&encrypted), "A");
}

#[test]
fn planet_sizes() {
    assert_eq!(Planet::Saturn.size(), 3);
    assert_eq!(Planet::Jupiter.size(), 4);
    assert_eq!(Planet::Mars.size(), 5);
    assert_eq!(Planet::Sun.size(), 6);
    assert_eq!(Planet::Venus.size(), 7);
    assert_eq!(Planet::Mercury.size(), 8);
    assert_eq!(Planet::Moon.size(), 9);
}

#[test]
fn magic_constants() {
    assert_eq!(Planet::Saturn.magic_constant(), 15);
    assert_eq!(Planet::Jupiter.magic_constant(), 34);
    assert_eq!(Planet::Mars.magic_constant(), 65);
    assert_eq!(Planet::Sun.magic_constant(), 111);
    assert_eq!(Planet::Venus.magic_constant(), 175);
    assert_eq!(Planet::Mercury.magic_constant(), 260);
    assert_eq!(Planet::Moon.magic_constant(), 369);
}

#[test]
fn saturn_is_valid_magic_square() {
    let cipher = MagicSquare::saturn();
    let expected = Planet::Saturn.magic_constant();

    for row in cipher.square().iter() {
        let sum: u32 = row.iter().sum();
        assert_eq!(sum, expected);
    }

    for col in 0..3 {
        let sum: u32 = (0..3).map(|row| cipher.square()[row][col]).sum();
        assert_eq!(sum, expected);
    }
}

#[test]
fn case_insensitive() {
    let cipher = MagicSquare::mars();
    assert_eq!(cipher.encrypt("a"), cipher.encrypt("A"));
}

#[test]
fn max_value() {
    assert_eq!(MagicSquare::saturn().max_value(), 9);
    assert_eq!(MagicSquare::jupiter().max_value(), 16);
    assert_eq!(MagicSquare::mars().max_value(), 25);
    assert_eq!(MagicSquare::moon().max_value(), 81);
}

#[test]
fn all_planet_squares_are_magic() {
    let planets = [
        Planet::Saturn,
        Planet::Jupiter,
        Planet::Mars,
        Planet::Sun,
        Planet::Venus,
        Planet::Mercury,
        Planet::Moon,
    ];
    for planet in planets {
        let cipher = MagicSquare::new(planet);
        let n = planet.size();
        let expected = planet.magic_constant();
        let square = cipher.square();
        assert_eq!(square.len(), n);
        let mut seen = vec![false; n * n + 1];
        for row in square.iter() {
            assert_eq!(row.len(), n);
            let sum: u32 = row.iter().sum();
            assert_eq!(sum, expected);
            for &v in row.iter() {
                assert!(1 <= v && v as usize <= n * n);
                assert!(!seen[v as usize], "value repeated in square");
                seen[v as usize] = true;
            }
        }
        for col in 0..n {
            let sum: u32 = (0..n).map(|row| square[row][col]).sum();
            assert_eq!(sum, expected);
        }
        let diag: u32 = (0..n).map(|i| square[i][i]).sum();
        assert_eq!(diag, expected);
        let anti: u32 = (0..n).map(|i| square[i][n - 1 - i]).sum();
        assert_eq!(anti, expected);
        assert!(seen[1..].iter().all(|&b| b), "value missing from square");
    }
}

#[test]
fn magic_square_both_separators_custom() {
    let cipher = MagicSquare::jupiter().with_separator("|").with_coord_separator("-");
    let plaintext = "ABODE";
    let encrypted = cipher.encrypt(plaintext);
    assert!(encrypted.contains('|'));
    assert!(encrypted.contains('-'));
    assert_eq!(cipher.decrypt(&encrypted), plaintext);
}

#[test]
fn magic_square_decrypt_passthrough() {
    let cipher = MagicSquare::saturn();
    assert_eq!(cipher.decrypt("hello"), "hello");
    assert_eq!(cipher.decrypt("7,9 2,3"), "7,9A");
}

#[test]
fn magic_square_empty_input() {
    let cipher = MagicSquare::moon();
    assert_eq!(cipher.encrypt(""), "");
}
