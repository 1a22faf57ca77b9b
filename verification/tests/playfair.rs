use old_crypto_rs::{Block, PlayfairCipher};

#[test]
fn playfair_test_new_cipher() {
    let _c = PlayfairCipher::new("ARABESQUE");
}

#[test]
fn test_playfair_cipher_block_size() {
    let c = PlayfairCipher::new("ARABESQUE");
    assert_eq!(c.block_size(), 2);
}

#[test]
fn test_playfair_cipher_encrypt() {
    let c = PlayfairCipher::new("PLAYFAIREXAMPLE");
    let pt = b"HIDETHEGOLDINTHETREXESTUMP";
    let ct = b"BMODZBXDNABEKUDMUIXMMOUVIF";
    let mut dst = vec![0u8; ct.len()];
    c.encrypt(&mut dst, pt);
    assert_eq!(dst, ct);
}

#[test]
fn test_playfair_cipher_encrypt_x() {
    let c = PlayfairCipher::new("PLAYFAIREXAMPLE");
    let pt = b"HID";
    let ct = b"BMGE";
    let mut dst = vec![0u8; 4];
    c.encrypt(&mut dst, pt);
    assert_eq!(dst, ct);
}

#[test]
fn test_playfair_cipher_decrypt() {
    let c = PlayfairCipher::new("PLAYFAIREXAMPLE");
    let ct = b"BMODZBXDNABEKUDMUIXMMOUVIF";
    let pt = b"HIDETHEGOLDINTHETREXESTUMP";
    let mut dst = vec![0u8; ct.len()];
    c.decrypt(&mut dst, ct);
    assert_eq!(dst, pt);
}
