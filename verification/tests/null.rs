use old_crypto_rs::{Block, NullCipher};

#[test]
fn null_test_new_cipher() {
    let _ = NullCipher::new();
}

#[test]
fn test_null_cipher_block_size() {
    let c = NullCipher::new();
    assert_eq!(c.block_size(), 1);
}

#[test]
fn test_null_cipher_encrypt() {
    let c = NullCipher::new();
    let tests = [("ABCDE", "ABCDE"), ("COUCOU", "COUCOU")];

    for (pt, ct) in tests {
        let plain = pt.as_bytes();
        let mut cipher = vec![0u8; plain.len()];
        c.encrypt(&mut cipher, plain);
        assert_eq!(cipher, ct.as_bytes());
    }
}

#[test]
fn test_null_cipher_decrypt() {
    let c = NullCipher::new();
    let tests = [("ABCDE", "ABCDE"), ("COUCOU", "COUCOU")];

    for (pt, ct) in tests {
        let cipher = ct.as_bytes();
        let mut plain = vec![0u8; cipher.len()];
        c.decrypt(&mut plain, cipher);
        assert_eq!(plain, pt.as_bytes());
    }
}
