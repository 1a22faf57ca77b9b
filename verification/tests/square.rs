use old_crypto_rs::{Block, SquareCipher};

#[test]
fn square_test_expand_key() {
    let test_data = [("PORTABLE", "ADFGVX"), ("ARABESQUE", "012345")];
    for (key, chrs) in test_data {
        let _c = SquareCipher::new(key, chrs).unwrap();
    }
}

#[test]
fn square_test_new_cipher() {
    let c = SquareCipher::new("PORTABLE", "ADFGVX");
    assert!(c.is_ok());
}

#[test]
fn test_new_cipher_empty_key() {
    let c = SquareCipher::new("", "012345");
    assert!(c.is_err());
}

#[test]
fn test_new_cipher_empty_chrs() {
    let c = SquareCipher::new("SUBWAY", "");
    assert!(c.is_err());
}

#[test]
fn test_square_cipher_block_size() {
    let test_data = [("PORTABLE", "ADFGVX"), ("ARABESQUE", "012345")];
    for (key, chrs) in test_data {
        let c = SquareCipher::new(key, chrs).unwrap();
        assert_eq!(c.block_size(), key.len());
    }
}

#[test]
fn test_square_cipher_encrypt() {
    let test_data = [
        ("PORTABLE", "ADFGVX", "ATTACKATDAWN", "AVAGAGAVDFFGAVAGDGAVGVFX"),
        ("ARABESQUE", "012345", "ATTACKATDAWN", "003232001122003212003425"),
    ];

    for (key, chrs, pt, ct) in test_data {
        let c = SquareCipher::new(key, chrs).unwrap();
        let src = pt.as_bytes();
        let mut dst = vec![0u8; 2 * pt.len()];
        c.encrypt(&mut dst, src);
        assert_eq!(String::from_utf8(dst).unwrap(), ct);
    }
}

#[test]
fn test_square_cipher_decrypt() {
    let test_data = [
        ("PORTABLE", "ADFGVX", "ATTACKATDAWN", "AVAGAGAVDFFGAVAGDGAVGVFX"),
        ("ARABESQUE", "012345", "ATTACKATDAWN", "003232001122003212003425"),
    ];

    for (key, chrs, pt, ct) in test_data {
        let c = SquareCipher::new(key, chrs).unwrap();
        let src = ct.as_bytes();
        let mut dst = vec![0u8; src.len() / 2];
        c.decrypt(&mut dst, src);
        assert_eq!(String::from_utf8(dst).unwrap(), pt);
    }
}
