use old_crypto_rs::expand_key;
use old_crypto_rs::{Block, CaesarCipher};

#[test]
fn caesar_test_expand_key() {
    let (enc, dec) = expand_key(3);

    let myenc_data = [
        (b'A', b'D'),
        (b'B', b'E'),
        (b'C', b'F'),
        (b'D', b'G'),
        (b'E', b'H'),
        (b'F', b'I'),
        (b'G', b'J'),
        (b'H', b'K'),
        (b'I', b'L'),
        (b'J', b'M'),
        (b'K', b'N'),
        (b'L', b'O'),
        (b'M', b'P'),
        (b'N', b'Q'),
        (b'O', b'R'),
        (b'P', b'S'),
        (b'Q', b'T'),
        (b'R', b'U'),
        (b'S', b'V'),
        (b'T', b'W'),
        (b'U', b'X'),
        (b'V', b'Y'),
        (b'W', b'Z'),
        (b'X', b'A'),
        (b'Y', b'B'),
        (b'Z', b'C'),
    ];
    for (k, v) in myenc_data {
        assert_eq!(enc[k as usize], v);
    }

    let mydec_data = [
        (b'D', b'A'),
        (b'E', b'B'),
        (b'F', b'C'),
        (b'G', b'D'),
        (b'H', b'E'),
        (b'I', b'F'),
        (b'J', b'G'),
        (b'K', b'H'),
        (b'L', b'I'),
        (b'M', b'J'),
        (b'N', b'K'),
        (b'O', b'L'),
        (b'P', b'M'),
        (b'Q', b'N'),
        (b'R', b'O'),
        (b'S', b'P'),
        (b'T', b'Q'),
        (b'U', b'R'),
        (b'V', b'S'),
        (b'W', b'T'),
        (b'X', b'U'),
        (b'Y', b'V'),
        (b'Z', b'W'),
        (b'A', b'X'),
        (b'B', b'Y'),
        (b'C', b'Z'),
    ];
    for (k, v) in mydec_data {
        assert_eq!(dec[k as usize], v);
    }
}

#[test]
fn test_caesar_cipher_block_size() {
    for key in [3, 4, 13] {
        let c = CaesarCipher::new(key);
        assert_eq!(c.block_size(), 1);
    }
}

#[test]
fn test_caesar_cipher_encrypt() {
    let cases = [(3, "ABCDE", "DEFGH"), (4, "COUCOU", "GSYGSY"), (13, "COUCOU", "PBHPBH")];
    for (key, pt, ct) in cases {
        let c = CaesarCipher::new(key);
        let plain = pt.as_bytes();
        let mut cipher = vec![0u8; plain.len()];
        c.encrypt(&mut cipher, plain);
        assert_eq!(cipher, ct.as_bytes());
    }
}

#[test]
fn test_caesar_cipher_decrypt() {
    let cases = [(3, "ABCDE", "DEFGH"), (4, "COUCOU", "GSYGSY"), (13, "COUCOU", "PBHPBH")];
    for (key, pt, ct) in cases {
        let c = CaesarCipher::new(key);
        let cipher = ct.as_bytes();
        let mut plain = vec![0u8; cipher.len()];
        c.decrypt(&mut plain, cipher);
        assert_eq!(plain, pt.as_bytes());
    }
}
