use old_crypto_rs::{Block, Sigaba};

#[test]
fn test_sigaba_basic() {
    let s = Sigaba::new(
        [0, 1, 2, 3, 4],
        [0; 5],
        [false; 5],
        [0, 1, 2, 3, 4],
        [0; 5],
        [false; 5],
        [0, 1, 2, 3, 4],
        [0; 5],
        [false; 5],
    );

    let plain = b"HELLOWORLD";
    let mut cipher = vec![0u8; plain.len()];
    let mut dec = vec![0u8; plain.len()];

    s.encrypt(&mut cipher, plain);
    s.decrypt(&mut dec, &cipher);

    assert_eq!(dec, plain);
}

#[test]
fn test_sigaba_mixed_positions_round_trip() {
    let s = Sigaba::new(
        [5, 4, 3, 2, 1],
        [1, 2, 3, 4, 5],
        [false; 5],
        [4, 3, 2, 1, 0],
        [5, 4, 3, 2, 1],
        [true, false, true, false, true],
        [0, 1, 2, 3, 4],
        [0, 0, 0, 0, 0],
        [false; 5],
    );

    let plain = b"THEQUICKBROWNFOXJUMPSOVERTHELAZYDOG";
    let mut cipher = vec![0u8; plain.len()];
    let mut dec = vec![0u8; plain.len()];

    s.encrypt(&mut cipher, plain);
    s.decrypt(&mut dec, &cipher);

    assert_eq!(dec, plain);
}

#[test]
fn test_sigaba_reversed_round_trip() {
    let s = Sigaba::new(
        [1, 3, 5, 0, 2],
        [0; 5],
        [true; 5],
        [0, 2, 4, 1, 3],
        [10; 5],
        [false; 5],
        [0, 1, 2, 3, 4],
        [0; 5],
        [false; 5],
    );

    let plain = b"ATTACKATDAWN";
    let mut cipher = vec![0u8; plain.len()];
    let mut dec = vec![0u8; plain.len()];

    s.encrypt(&mut cipher, plain);
    s.decrypt(&mut dec, &cipher);

    assert_eq!(dec, plain);
}

#[test]
fn test_sigaba_passes_other_bytes() {
    let s = Sigaba::new(
        [0, 1, 2, 3, 4],
        [0; 5],
        [false; 5],
        [0, 1, 2, 3, 4],
        [0; 5],
        [false; 5],
        [0, 1, 2, 3, 4],
        [0; 5],
        [false; 5],
    );
    let plain = b"HELLO WORLD 42";
    let mut cipher = vec![0u8; plain.len()];
    s.encrypt(&mut cipher, plain);
    assert_eq!(cipher[5], b' ');
    assert_eq!(&cipher[12..], b"42");
}
