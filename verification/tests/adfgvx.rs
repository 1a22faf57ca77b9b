use old_crypto_rs::{Block, ADFGVX};

#[test]
fn adfgvx_test_new_cipher() {
    let _c = ADFGVX::new("PORTABLE", "SUBWAY").unwrap();
}

#[test]
fn adfgvx_test_new_cipher_bad_keys() {
    assert!(ADFGVX::new("PORTABLE", "").is_err());
    assert!(ADFGVX::new("", "SUBWAY").is_err());
}

#[test]
fn test_adfgvx_block_size() {
    let c = ADFGVX::new("PORTABLE", "SUBWAY").unwrap();
    assert_eq!(c.block_size(), 6);
}

#[test]
fn test_adfgvx_encrypt() {
    let c = ADFGVX::new("PORTABLE", "SUBWAY").unwrap();
    let pt = "ATTACKATDAWN";
    let ct = "AFDFADAGAAAAVVVVGFGVGGGX";
    let mut dst = vec![0u8; ct.len()];
    c.encrypt(&mut dst, pt.as_bytes());
    assert_eq!(String::from_utf8_lossy(&dst), ct);
}

#[test]
fn test_adfgvx_decrypt() {
    let c = ADFGVX::new("PORTABLE", "SUBWAY").unwrap();
    let pt = "ATTACKATDAWN";
    let ct = "AFDFADAGAAAAVVVVGFGVGGGX";
    let mut dst = vec![0u8; pt.len()];
    c.decrypt(&mut dst, ct.as_bytes());
    assert_eq!(String::from_utf8_lossy(&dst), pt);
}
