use old_crypto_rs::{Block, Solitaire};

#[test]
fn test_solitaire_keystream() {
    let mut deck: Vec<u8> = (1..=54).collect();
    let mut actual = Vec::new();
    for _ in 0..10 {
        let (next, v) = Solitaire::step(&deck);
        deck = next;
        actual.push(v);
    }
    let expected = [4, 23, 10, 24, 8, 25, 18, 6, 4, 7];
    assert_eq!(actual, expected);
}

#[test]
fn test_solitaire_wikipedia_example_1() {
    let s = Solitaire::new_unkeyed();
    let src = b"AAAAA";
    let mut dst = vec![0u8; src.len()];
    s.encrypt(&mut dst, src);
    assert_eq!(std::str::from_utf8(&dst).unwrap(), "EXKYI");
}

#[test]
fn test_solitaire_wikipedia_example_2() {
    let s = Solitaire::new_unkeyed();
    let src = b"AAAAAAAAAA";
    let mut dst = vec![0u8; src.len()];
    s.encrypt(&mut dst, src);
    assert_eq!(std::str::from_utf8(&dst).unwrap(), "EXKYIZSGEH");
}

#[test]
fn test_solitaire_wikipedia_example_3() {
    let s = Solitaire::new_unkeyed();
    let src = b"EXKYIZSGEH";
    let mut dst = vec![0u8; src.len()];
    s.decrypt(&mut dst, src);
    assert_eq!(std::str::from_utf8(&dst).unwrap(), "AAAAAAAAAA");
}

#[test]
fn test_solitaire_wikipedia_example_4() {
    let s = Solitaire::new_unkeyed();
    let src = b"CLEAN";
    let mut dst = vec![0u8; src.len()];
    s.encrypt(&mut dst, src);
    assert_eq!(std::str::from_utf8(&dst).unwrap(), "GIOYV");

    let mut dec = vec![0u8; src.len()];
    s.decrypt(&mut dec, &dst);
    assert_eq!(std::str::from_utf8(&dec).unwrap(), "CLEAN");
}

#[test]
fn test_solitaire_extra_examples() {
    let tests = [
        ("", "AAAAAAAAAAAAAAA", "EXKYIZSGEHUNTIQ"),
        ("f", "AAAAAAAAAAAAAAA", "XYIUQBMHKKJBEGY"),
        ("fo", "AAAAAAAAAAAAAAA", "TUJYMBERLGXNDIW"),
        ("foo", "AAAAAAAAAAAAAAA", "ITHZUJIWGRFARMW"),
        ("a", "AAAAAAAAAAAAAAA", "XODALGSCULIQNSC"),
        ("aa", "AAAAAAAAAAAAAAA", "OHGWMXXCAIMCIQP"),
        ("aaa", "AAAAAAAAAAAAAAA", "DCSQYHBQZNGDRUT"),
        ("b", "AAAAAAAAAAAAAAA", "XQEEMOITLZVDSQS"),
        ("bc", "AAAAAAAAAAAAAAA", "QNGRKQIHCLGWSCE"),
        ("bcd", "AAAAAAAAAAAAAAA", "FMUBYBMAXHNQXCJ"),
        ("cryptonomicon", "AAAAAAAAAAAAAAAAAAAAAAAAA", "SUGSRSXSWQRMXOHIPBFPXARYQ"),
        ("cryptonomicon", "SOLITAIRE", "KIRAKSFJA"),
    ];

    for (pass, pt, ct) in tests {
        let s = if pass.is_empty() {
            Solitaire::new_unkeyed()
        } else {
            Solitaire::new_with_passphrase(pass)
        };
        let mut dst = vec![0u8; pt.len()];
        s.encrypt(&mut dst, pt.as_bytes());
        assert_eq!(std::str::from_utf8(&dst).unwrap(), ct, "Failed for key '{}'", pass);
    }
}
