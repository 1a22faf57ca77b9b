use old_crypto_rs::{Block, IrregularTransposition, Transposition};

#[test]
fn transposition_test_new_cipher() {
    let c = Transposition::new("ABCDE").unwrap();
    assert_eq!(c.rank_sequence(), vec![0, 1, 2, 3, 4]);
}

#[test]
fn test_new_cipher_empty() {
    let c = Transposition::new("");
    assert!(c.is_err());
}

#[test]
fn test_transposition_block_size() {
    let c = Transposition::new("ABCDE").unwrap();
    assert_eq!(c.block_size(), 5);
}

#[test]
fn test_transposition_encrypt() {
    let test_data = [
        (
            "ARABESQUE",
            "AATNIITN2MIHAAXOOTCT2RNXDNENNAOXMB2TW4DTGKP3ES1TISUY3",
            "ATTACKATDAWNATPOINT42X23XSENDMOREMUNITIONSBYNIGHTX123",
        ),
        (
            "SUBWAY",
            "CWI2DUNG3TDP2EEIN1AAATXOIBTTTT4SRTYXAAOXNMOI2KNN3MNSH",
            "ATTACKATDAWNATPOINT42X23XSENDMOREMUNITIONSBYNIGHTX123",
        ),
        (
            "PORTABLE",
            "CA2DIN3KTXMTITO3ROHAP2OIGTANSMSXADIXENTTWTEUB1AN4NNY2",
            "ATTACKATDAWNATPOINT42X23XSENDMOREMUNITIONSBYNIGHTX123",
        ),
        ("SUBWAY", "AFDFADAGAAAAVVVVGFGVGGGX", "AVAGAGAVDFFGAVAGDGAVGVFX"),
    ];
    for (key, ct, pt) in test_data {
        let c = Transposition::new(key).unwrap();
        let mut dst = vec![0u8; pt.len()];
        c.encrypt(&mut dst, pt.as_bytes());
        assert_eq!(String::from_utf8(dst).unwrap(), ct);
    }
}

#[test]
fn test_transposition_decrypt() {
    let test_data = [
        (
            "ARABESQUE",
            "AATNIITN2MIHAAXOOTCT2RNXDNENNAOXMB2TW4DTGKP3ES1TISUY3",
            "ATTACKATDAWNATPOINT42X23XSENDMOREMUNITIONSBYNIGHTX123",
        ),
        (
            "SUBWAY",
            "CWI2DUNG3TDP2EEIN1AAATXOIBTTTT4SRTYXAAOXNMOI2KNN3MNSH",
            "ATTACKATDAWNATPOINT42X23XSENDMOREMUNITIONSBYNIGHTX123",
        ),
        (
            "PORTABLE",
            "CA2DIN3KTXMTITO3ROHAP2OIGTANSMSXADIXENTTWTEUB1AN4NNY2",
            "ATTACKATDAWNATPOINT42X23XSENDMOREMUNITIONSBYNIGHTX123",
        ),
        ("SUBWAY", "AFDFADAGAAAAVVVVGFGVGGGX", "AVAGAGAVDFFGAVAGDGAVGVFX"),
    ];
    for (key, ct, pt) in test_data {
        let c = Transposition::new(key).unwrap();
        let mut dst = vec![0u8; pt.len()];
        c.decrypt(&mut dst, ct.as_bytes());
        assert_eq!(String::from_utf8(dst).unwrap(), pt);
    }
}

#[test]
fn test_irregular_transposition_mask() {
    // Key "94735236270398134": rank 0 sits at column 10 and rank 1 at
    // column 14, so the first triangular area covers columns 10 to 16 of
    // row 0 and starts one column later on each following row.
    let key = "94735236270398134";
    let c = IrregularTransposition::new(key).unwrap();
    let mask = c.get_triangular_mask(150);
    let klen = 17;

    for col in 10..17 {
        assert!(mask[0 * klen + col], "Row 0 col {} should be true", col);
    }
    for col in 0..10 {
        assert!(!mask[0 * klen + col], "Row 0 col {} should be false", col);
    }

    for col in 11..17 {
        assert!(mask[1 * klen + col], "Row 1 col {} should be true", col);
    }
    assert!(!mask[1 * klen + 10]);

    assert!(mask[0 * klen + 14]);
}

#[test]
fn test_irregular_round_trip() {
    let c = IrregularTransposition::new("SUBWAY").unwrap();
    let pt = b"ATTACKATDAWNATPOINTXSENDMOREMUNITIONS";
    let mut ct = vec![0u8; pt.len()];
    let n = c.encrypt(&mut ct, pt);
    assert_eq!(n, pt.len());
    let mut back = vec![0u8; pt.len()];
    let m = c.decrypt(&mut back, &ct);
    assert_eq!(m, pt.len());
    assert_eq!(&back, pt);
}

#[test]
fn test_transposition_empty_input() {
    let c = Transposition::new("SUBWAY").unwrap();
    let mut dst: Vec<u8> = Vec::new();
    assert_eq!(c.encrypt(&mut dst, b""), 0);
    assert_eq!(c.decrypt(&mut dst, b""), 0);
    let ci = IrregularTransposition::new("SUBWAY").unwrap();
    assert_eq!(ci.encrypt(&mut dst, b""), 0);
    assert_eq!(ci.decrypt(&mut dst, b""), 0);
}

#[test]
fn test_transposition_all_equal_key() {
    // A key of equal letters ranks as the identity, so the grid is read
    // back in column order of the original layout.
    let c = Transposition::new("AAAA").unwrap();
    assert_eq!(c.rank_sequence(), vec![0, 1, 2, 3]);
    let pt = b"ABCDEFGH";
    let mut ct = vec![0u8; pt.len()];
    c.encrypt(&mut ct, pt);
    assert_eq!(&ct, b"AEBFCGDH");
    let mut back = vec![0u8; pt.len()];
    c.decrypt(&mut back, &ct);
    assert_eq!(&back, pt);
}

#[test]
fn test_transposition_single_column() {
    let c = Transposition::new("A").unwrap();
    let pt = b"HELLO";
    let mut ct = vec![0u8; pt.len()];
    c.encrypt(&mut ct, pt);
    assert_eq!(&ct, pt);
}
