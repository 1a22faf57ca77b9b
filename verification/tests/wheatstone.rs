use old_crypto_rs::{helpers, Block, Wheatstone};

const PLAIN_TXT: &str = "CHARLES+WHEATSTONE+HAD+A+REMARKABLY+FERTILE+MIND";
const CIPHER_TXT: &str = "BYVLQKWAMNLCYXIOUBFLHTXGHFPBJHZZLUEZFHIVBVRTFVRQ";
const KEY1: &str = "CIPHER";
const KEY2: &str = "MACHINE";
const LPLAIN_TXT: &str = "IFYOUCANREADTHISYOUEITHERDOWNLOADEDMYOWNIMPLEMENTATIONOFCHAOCIPHERORYOUWROTEONEOFYOUROWNINEITHERCASELETMEKNOWANDACCEPTMYCONGRATULATIONSX";
const LCIPHER_TXT: &str = "PIPTIADNMEWJYKGHGVEOIZUVWEPWVKCIMWBOKXHCLDAOGCRGPMWDNJKJVJDLDQYZEBMOXBKVAVSOABVDBJWBQFQPTWFEMPQRZNTXBHVWGLHIJLGFMMLBZHXYCDUTUOCYNYQJYABYX";

#[test]
fn wheatstone_test_new_cipher() {
    let c = Wheatstone::new(b'M', KEY1, KEY2).unwrap();
    let _ = c;
}

#[test]
fn test_encode() {
    let c = Wheatstone::new(b'M', KEY1, KEY2).unwrap();
    let mut st = c.start_state();
    assert_eq!(st.curpos, 0);
    assert_eq!(st.ctpos, 0);

    assert_eq!(c.encode(&mut st, b'C'), b'B');
    assert_eq!(st.curpos, 1);
    assert_eq!(st.ctpos, 1);

    assert_eq!(c.encode(&mut st, b'H'), b'Y');
    assert_eq!(st.curpos, 15);
    assert_eq!(st.ctpos, 15);

    assert_eq!(c.encode(&mut st, b'A'), b'V');
    assert_eq!(st.curpos, 2);
    assert_eq!(st.ctpos, 3);

    assert_eq!(c.encode(&mut st, b'R'), b'L');
    assert_eq!(st.curpos, 23);
    assert_eq!(st.ctpos, 24);
}

#[test]
fn test_decode() {
    let c = Wheatstone::new(b'M', KEY1, KEY2).unwrap();
    let mut st = c.start_state();
    assert_eq!(st.curpos, 0);
    assert_eq!(st.ctpos, 0);

    assert_eq!(c.decode(&mut st, b'B'), b'C');
    assert_eq!(st.curpos, 1);
    assert_eq!(st.ctpos, 1);

    assert_eq!(c.decode(&mut st, b'Y'), b'H');
    assert_eq!(st.curpos, 15);
    assert_eq!(st.ctpos, 15);

    assert_eq!(c.decode(&mut st, b'V'), b'A');
    assert_eq!(st.curpos, 2);
    assert_eq!(st.ctpos, 3);

    assert_eq!(c.decode(&mut st, b'L'), b'R');
    assert_eq!(st.curpos, 23);
    assert_eq!(st.ctpos, 24);
}

#[test]
fn test_wheatstone_encrypt() {
    let c = Wheatstone::new(b'M', KEY1, KEY2).unwrap();
    let src = PLAIN_TXT.as_bytes();
    let mut dst = vec![0u8; src.len()];
    c.encrypt(&mut dst, src);
    assert_eq!(dst, CIPHER_TXT.as_bytes());
}

#[test]
fn test_wheatstone_encrypt_start_a() {
    let c = Wheatstone::new(b'A', KEY1, KEY2).unwrap();
    let src = PLAIN_TXT.as_bytes();
    let mut dst = vec![0u8; src.len()];
    c.encrypt(&mut dst, src);
    assert_eq!(
        String::from_utf8_lossy(&dst),
        "DZWORUXCALOHZYNPVDGOIMYJIGQDKIEEOVBEGINWDWSMGWSR"
    );
}

#[test]
fn test_wheatstone_encrypt_long() {
    let c = Wheatstone::new(b'M', KEY1, KEY2).unwrap();
    let plain = helpers::fix_double(LPLAIN_TXT, 'Q');
    let src = plain.as_bytes();
    let mut dst = vec![0u8; src.len()];
    c.encrypt(&mut dst, src);
    assert_eq!(dst, LCIPHER_TXT.as_bytes());
}

#[test]
fn test_wheatstone_decrypt() {
    let c = Wheatstone::new(b'M', KEY1, KEY2).unwrap();
    let src = CIPHER_TXT.as_bytes();
    let mut dst = vec![0u8; src.len()];
    c.decrypt(&mut dst, src);
    assert_eq!(dst, PLAIN_TXT.as_bytes());
}

#[test]
fn test_wheatstone_decrypt_long() {
    let c = Wheatstone::new(b'M', KEY1, KEY2).unwrap();
    let plain = helpers::fix_double(LPLAIN_TXT, 'Q');
    let src = LCIPHER_TXT.as_bytes();
    let mut dst = vec![0u8; src.len()];
    c.decrypt(&mut dst, src);
    assert_eq!(dst, plain.as_bytes());
}
