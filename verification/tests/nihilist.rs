use old_crypto_rs::{Block, Nihilist};

#[test]
fn nihilist_test_new_cipher() {
    let c = Nihilist::new("ARABESQUE", "SUBWAY", "37").unwrap();
    assert_eq!(c.block_size(), 6);
}

#[test]
fn nihilist_test_new_cipher_bad_keys() {
    assert!(Nihilist::new("PORTABLE", "", "89").is_err());
    assert!(Nihilist::new("", "SUBWAY", "62").is_err());
}

#[test]
fn test_nihilist_encrypt() {
    let c = Nihilist::new("ARABESQUE", "SUBWAY", "37").unwrap();
    let pt = "IFYOUCANREADTHIS";
    let ct = "1037306631738227035749";
    let mut dst = vec![0u8; ct.len()];
    c.encrypt(&mut dst, pt.as_bytes());
    assert_eq!(String::from_utf8_lossy(&dst), ct);
}

#[test]
fn test_nihilist_decrypt() {
    let c = Nihilist::new("ARABESQUE", "SUBWAY", "37").unwrap();
    let pt = "IFYOUCANREADTHIS";
    let ct = "1037306631738227035749";
    let mut dst = vec![0u8; pt.len()];
    let n = c.decrypt(&mut dst, ct.as_bytes());
    assert_eq!(&dst[..n], pt.as_bytes());
}
