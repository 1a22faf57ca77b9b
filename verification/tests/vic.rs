use old_crypto_rs::{
    addmod10_inplace, chainadd_extend, chainadd_inplace, first_encode, helpers, str2int, submod10,
    Block, VicCipher,
};

#[test]
fn vic_test_new_cipher() {
    let _c = VicCipher::new("89", "741776", "IDREAMOFJEANNIEWITHT", "77651").unwrap();
}

#[test]
fn test_first_encode() {
    let r1 = vec![6, 5, 5, 1, 5, 1, 7, 8, 9, 1];
    let r2 = vec![1, 6, 7, 4, 2, 0, 5, 8, 3, 9];
    let r = vec![0, 2, 2, 1, 2, 1, 5, 8, 3, 1];
    assert_eq!(first_encode(&r1, &r2), r);
}

#[test]
fn test_vic_cipher_full() {
    let c = VicCipher::new("89", "741776", "IDREAMOFJEANNIEWITHT", "77651").unwrap();

    let pt = "HELLOWORLD";
    let mut ct = vec![0u8; 100];
    let ct_actual_len = c.encrypt(&mut ct, pt.as_bytes());

    let ct_trimmed = &ct[..ct_actual_len];
    assert!(ct_trimmed.len() >= 11);

    let mut decrypted = vec![0u8; 100];
    let dec_len = c.decrypt(&mut decrypted, ct_trimmed);

    let res = String::from_utf8_lossy(&decrypted[..dec_len]).to_string();
    assert_eq!(res, pt);
}

#[test]
fn test_vic_wikipedia_example() {
    // The documented worked example: passphrase IDREAMOFJEANNIEWITHT,
    // message date 13 Sept 1944 written as 1391944, indicator 74177.
    let imsg = str2int("1391944");
    let ikey5 = str2int("74177");
    let j = submod10(&imsg[..5], &ikey5);
    assert_eq!(j, vec![4, 9, 8, 4, 2]);

    let k = chainadd_extend(&j, 5);
    assert_eq!(k, vec![4, 9, 8, 4, 2, 3, 7, 2, 6, 5]);

    let ph1 = vec![6, 2, 0, 3, 1, 8, 9, 5, 7, 4];
    let mut l = k.clone();
    addmod10_inplace(&mut l, &ph1);
    assert_eq!(l, vec![0, 1, 8, 7, 3, 1, 6, 7, 3, 9]);

    let ph2 = vec![1, 6, 7, 4, 2, 0, 5, 8, 3, 9];
    let m = first_encode(&l, &ph2);
    assert_eq!(m, vec![9, 1, 8, 5, 7, 1, 0, 5, 7, 3]);

    let mut r = m.clone();
    for _ in 0..5 {
        chainadd_inplace(&mut r);
    }
    assert_eq!(r, vec![0, 6, 8, 2, 0, 5, 1, 3, 7, 0]);

    let r_str: String = r.iter().map(|&b| (b + b'0') as char).collect();
    let sckey = helpers::to_numeric(&r_str);
    assert_eq!(sckey, vec![0, 7, 9, 4, 1, 6, 3, 5, 8, 2]);
}

#[test]
fn test_to_numeric_one() {
    let cases = [
        ("IDREAMOFJE", vec![6, 2, 0, 3, 1, 8, 9, 5, 7, 4]),
        ("ANNIEWITHT", vec![1, 6, 7, 4, 2, 0, 5, 8, 3, 9]),
    ];
    for (s, r) in cases {
        let res: Vec<u8> = helpers::to_numeric(s).into_iter().map(|x| (x + 1) % 10).collect();
        assert_eq!(res, r);
    }
}

#[test]
fn test_addmod10() {
    let cases = [
        (vec![8, 6, 1, 5, 4], vec![2, 0, 9, 5, 2], vec![0, 6, 0, 0, 6]),
        (vec![7, 7, 6, 5, 1], vec![7, 4, 1, 7, 7], vec![4, 1, 7, 2, 8]),
    ];
    for (mut a, b, c) in cases {
        addmod10_inplace(&mut a, &b);
        assert_eq!(a, c);
    }
}

#[test]
fn test_submod10() {
    let cases = [
        (vec![8, 6, 1, 5, 4], vec![2, 0, 9, 5, 2], vec![6, 6, 2, 0, 2]),
        (vec![7, 7, 6, 5, 1], vec![7, 4, 1, 7, 7], vec![0, 3, 5, 8, 4]),
    ];
    for (a, b, c) in cases {
        assert_eq!(submod10(&a, &b), c);
    }
}

#[test]
fn test_chainadd_inplace() {
    let cases = [
        (vec![8, 6, 1, 5, 4], vec![4, 7, 6, 9, 2]),
        (vec![7, 7, 6, 5, 1], vec![4, 3, 1, 6, 8]),
    ];
    for (mut a, b) in cases {
        chainadd_inplace(&mut a);
        assert_eq!(a, b);
    }
}

#[test]
fn test_expand5to10() {
    let cases = [
        (vec![8, 6, 1, 5, 4], vec![8, 6, 1, 5, 4, 4, 7, 6, 9, 8]),
        (vec![7, 7, 6, 5, 1], vec![7, 7, 6, 5, 1, 4, 3, 1, 6, 5]),
        (vec![0, 3, 5, 8, 4], vec![0, 3, 5, 8, 4, 3, 8, 3, 2, 7]),
    ];
    for (a, b) in cases {
        assert_eq!(chainadd_extend(&a, 5), b);
    }
}

#[test]
fn test_vic_rejects_bad_key_material() {
    assert!(VicCipher::new("8", "741776", "IDREAMOFJEANNIEWITHT", "77651").is_err());
    assert!(VicCipher::new("89", "7417", "IDREAMOFJEANNIEWITHT", "77651").is_err());
    assert!(VicCipher::new("89", "741776", "TOOSHORT", "77651").is_err());
    assert!(VicCipher::new("89", "741776", "IDREAMOFJEANNIEWITHT", "77A51").is_err());
}

#[test]
fn test_vic_digit_escape_round_trip() {
    let c = VicCipher::new("89", "741776", "IDREAMOFJEANNIEWITHT", "77651").unwrap();
    let pt = "MEETAT7PM";
    let mut ct = vec![0u8; 3 * pt.len()];
    let n = c.encrypt(&mut ct, pt.as_bytes());
    let mut back = vec![0u8; n];
    let m = c.decrypt(&mut back, &ct[..n]);
    assert_eq!(&back[..m], pt.as_bytes());
}

#[test]
fn test_vic_determinism() {
    let c1 = VicCipher::new("89", "741776", "IDREAMOFJEANNIEWITHT", "77651").unwrap();
    let c2 = VicCipher::new("89", "741776", "IDREAMOFJEANNIEWITHT", "77651").unwrap();
    let pt = b"HELLOWORLD";
    let mut ct1 = vec![0u8; 3 * pt.len()];
    let mut ct2 = vec![0u8; 3 * pt.len()];
    let n1 = c1.encrypt(&mut ct1, pt);
    let n2 = c2.encrypt(&mut ct2, pt);
    assert_eq!(n1, n2);
    assert_eq!(&ct1[..n1], &ct2[..n2]);
}

#[test]
fn test_vic_empty_input() {
    let c = VicCipher::new("89", "741776", "IDREAMOFJEANNIEWITHT", "77651").unwrap();
    let mut dst: Vec<u8> = Vec::new();
    assert_eq!(c.encrypt(&mut dst, b""), 0);
    assert_eq!(c.decrypt(&mut dst, b""), 0);
    assert_eq!(c.block_size(), 1);
}
