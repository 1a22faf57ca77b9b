use old_crypto_rs::{Block, StraddlingCheckerboard};

#[test]
fn straddling_test_new_cipher() {
    let c = StraddlingCheckerboard::new("ARABESQUE", "89").unwrap();
    assert_eq!(c.full_alphabet(), b"ACKVRDLWBFMXEGNYSHOZQIP/UJT-");
    assert_eq!(c.long_digits(), b"89");
}

#[test]
fn straddling_test_new_cipher_bad_keys() {
    assert!(StraddlingCheckerboard::new("ARABESQUE", "").is_err());
    assert!(StraddlingCheckerboard::new("", "89").is_err());
}

#[test]
fn straddling_test_expand_key() {
    let c = StraddlingCheckerboard::new("ARABESQUE", "89").unwrap();
    let v = c.code_of_byte(b'V');
    let k = c.code_of_byte(b'K');
    let a = c.code_of_byte(b'A');
    let e = c.code_of_byte(b'E');
    assert_eq!(v, b"82");
    assert_eq!(k, b"81");
    assert_eq!(a, b"0");
    assert_eq!(e, b"2");
    assert_eq!(c.decode_long(8, 2), b'V');
    assert_eq!(c.decode_short(0), b'A');
}

#[test]
fn test_extract() {
    let all = b"0123456789";
    let cases: [(&[u8], &[u8]); 3] =
        [(b"25", b"01346789"), (b"16", b"02345789"), (b"42", b"01356789")];
    for (two, expected) in cases {
        assert_eq!(StraddlingCheckerboard::extract(all, two), expected);
    }
}

#[test]
fn test_straddling_encrypt() {
    let cases = [
        ("ARABESQUE", "89", "ATTACKAT2AM", "0770808107972297088"),
        ("ARABESQUE", "36", "ATTACKAT2AM", "0990303109672267038"),
        ("ARABESQUE", "37", "IFYOUCANREADTHIS", "6377173830041203397265"),
        ("ARABESQUE", "89", "ATTACK", "07708081"),
        ("SUBWAY", "89", "TOLKIEN", "6819388137"),
        ("PORTABLE", "89", "RETRIBUTION", "1721693526840"),
    ];
    for (key, chrs, pt, ct) in cases {
        let c = StraddlingCheckerboard::new(key, chrs).unwrap();
        let mut dst = vec![0u8; 100];
        let n = c.encrypt(&mut dst, pt.as_bytes());
        assert_eq!(&dst[..n], ct.as_bytes());
    }
}

#[test]
fn test_straddling_decrypt() {
    let cases = [
        ("ARABESQUE", "89", "ATTACKAT2AM", "0770808107972297088"),
        ("ARABESQUE", "36", "ATTACKAT2AM", "0990303109672267038"),
        ("ARABESQUE", "37", "IFYOUCANREADTHIS", "6377173830041203397265"),
        ("ARABESQUE", "89", "ATTACK", "07708081"),
        ("SUBWAY", "89", "TOLKIEN", "6819388137"),
        ("PORTABLE", "89", "RETRIBUTION", "1721693526840"),
    ];
    for (key, chrs, pt, ct) in cases {
        let c = StraddlingCheckerboard::new(key, chrs).unwrap();
        let mut dst = vec![0u8; 100];
        let n = c.decrypt(&mut dst, ct.as_bytes());
        assert_eq!(&dst[..n], pt.as_bytes());
    }
}

#[test]
fn test_straddling_digit_escape_round_trip() {
    let c = StraddlingCheckerboard::new("ARABESQUE", "89").unwrap();
    let pt = b"AT2AM";
    let mut ct = vec![0u8; 3 * pt.len()];
    let n = c.encrypt(&mut ct, pt);
    let mut back = vec![0u8; n];
    let m = c.decrypt(&mut back, &ct[..n]);
    assert_eq!(&back[..m], pt);
}

#[test]
fn test_straddling_filler_round_trip() {
    let c = StraddlingCheckerboard::new("ARABESQUE", "89").unwrap();
    let pt = b"WAIT-HERE";
    let mut ct = vec![0u8; 3 * pt.len()];
    let n = c.encrypt(&mut ct, pt);
    let mut back = vec![0u8; n];
    let m = c.decrypt(&mut back, &ct[..n]);
    assert_eq!(&back[..m], pt);
}

#[test]
fn test_straddling_empty_input() {
    let c = StraddlingCheckerboard::new("ARABESQUE", "89").unwrap();
    let mut dst: Vec<u8> = Vec::new();
    assert_eq!(c.encrypt(&mut dst, b""), 0);
    assert_eq!(c.decrypt(&mut dst, b""), 0);
}
