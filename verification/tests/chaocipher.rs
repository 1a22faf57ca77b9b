use old_crypto_rs::{Block, Chaocipher};

const ALPHABET: &str = "ABCDEFGHIJKLMNOPQRSTUVWXYZ";
const PLAIN_TXT: &str = "WELLDONEISBETTERTHANWELLSAID";
const CIPHER_TXT: &str = "OAHQHCNYNXTSZJRRHJBYHQKSOUJY";
const KEY_PLAIN: &str = "PTLNBQDEOYSFAVZKGJRIHWXUMC";
const KEY_CIPHER: &str = "HXUCZVAMDSLKPEFJRIGTWOBNYQ";

#[test]
fn chaocipher_test_new_cipher() {
    let c = Chaocipher::new(ALPHABET, ALPHABET).unwrap();
    assert_eq!(c.block_size(), 1);
}

#[test]
fn test_new_cipher_bad_len() {
    assert!(Chaocipher::new("AB", "CD").is_err());
}

#[test]
fn test_chaocipher_encrypt() {
    let c = Chaocipher::new(KEY_PLAIN, KEY_CIPHER).unwrap();
    let src = PLAIN_TXT.as_bytes();
    let mut dst = vec![0u8; src.len()];
    c.encrypt(&mut dst, src);
    assert_eq!(dst, CIPHER_TXT.as_bytes());
}

#[test]
fn test_chaocipher_decrypt() {
    let c = Chaocipher::new(KEY_PLAIN, KEY_CIPHER).unwrap();
    let src = CIPHER_TXT.as_bytes();
    let mut dst = vec![0u8; src.len()];
    c.decrypt(&mut dst, src);
    assert_eq!(dst, PLAIN_TXT.as_bytes());
}
