//! The Caesar cipher: each letter of the upper-case alphabet is shifted a
//! fixed number of positions; every other byte passes through unchanged.

use vstd::prelude::*;

verus! {

use crate::Block;

/// An upper-case letter.
pub open spec fn is_upper(b: u8) -> bool {
    65 <= b <= 90
}

/// The encryption of one byte: letters shift forward by the key, other
/// bytes stay.
pub open spec fn spec_caesar_enc_byte(key: u8, b: u8) -> u8 {
    if is_upper(b) {
        (65 + ((b - 65) + key) % 26) as u8
    } else {
        b
    }
}

/// The decryption of one byte: letters shift backward by the key, other
/// bytes stay.
pub open spec fn spec_caesar_dec_byte(key: u8, b: u8) -> u8 {
    if is_upper(b) {
        (65 + ((b - 65) + 26 - (key as int) % 26) % 26) as u8
    } else {
        b
    }
}

/// Builds the encryption and decryption byte tables for a shift key.
pub fn expand_key(key: u8) -> (t: (Vec<u8>, Vec<u8>))
    ensures
        t.0@.len() == 256,
        t.1@.len() == 256,
        forall|b: int| 0 <= b < 256 ==> t.0@[b] == spec_caesar_enc_byte(key, b as u8),
        forall|b: int| 0 <= b < 256 ==> t.1@[b] == spec_caesar_dec_byte(key, b as u8),
{
    let mut enc: Vec<u8> = Vec::new();
    let mut dec: Vec<u8> = Vec::new();
    let mut b: usize = 0;
    while b < 256
        invariant
            b <= 256,
            enc@.len() == b,
            dec@.len() == b,
            forall|k: int| 0 <= k < b ==> enc@[k] == spec_caesar_enc_byte(key, k as u8),
            forall|k: int| 0 <= k < b ==> dec@[k] == spec_caesar_dec_byte(key, k as u8),
        decreases 256 - b,
    {
        let by: u8 = b as u8;
        if 65 <= by && by <= 90 {
            enc.push(65 + (((by - 65) as usize + key as usize) % 26) as u8);
            dec.push(65 + (((by - 65) as usize + 26 - (key as usize) % 26) % 26) as u8);
        } else {
            enc.push(by);
            dec.push(by);
        }
        b = b + 1;
    }
    (enc, dec)
}

/// A Caesar cipher with its two byte tables.
pub struct CaesarCipher {
    key: u8,
    enc: Vec<u8>,
    dec: Vec<u8>,
}

impl View for CaesarCipher {
    type V = u8;

    /// The cipher is modelled by its shift key.
    closed spec fn view(&self) -> u8 {
        self.key
    }
}

/// The whole-buffer Caesar encryption.
pub open spec fn spec_caesar_enc(key: u8, src: Seq<u8>) -> Seq<u8> {
    Seq::new(src.len(), |i: int| spec_caesar_enc_byte(key, src[i]))
}

/// The whole-buffer Caesar decryption.
pub open spec fn spec_caesar_dec(key: u8, src: Seq<u8>) -> Seq<u8> {
    Seq::new(src.len(), |i: int| spec_caesar_dec_byte(key, src[i]))
}

impl CaesarCipher {
    /// The structural invariant: the tables realise the byte maps.
    pub closed spec fn inv(&self) -> bool {
        &&& self.enc@.len() == 256
        &&& self.dec@.len() == 256
        &&& forall|b: int| 0 <= b < 256 ==> self.enc@[b] == spec_caesar_enc_byte(self.key, b as u8)
        &&& forall|b: int| 0 <= b < 256 ==> self.dec@[b] == spec_caesar_dec_byte(self.key, b as u8)
    }

    /// Creates a new Caesar cipher with the given shift; the shift is
    /// reduced to a byte as the table construction only uses it modulo 26.
    pub fn new(key: i32) -> (c: Self)
        ensures
            c.wf(),
            c@ == (key as u8),
    {
        let key_u8: u8 = #[verifier::truncate] (key as u8);
        let t = expand_key(key_u8);
        CaesarCipher { key: key_u8, enc: t.0, dec: t.1 }
    }
}

impl Block for CaesarCipher {
    open spec fn wf(&self) -> bool {
        self.inv()
    }

    open spec fn spec_block_size(&self) -> int {
        1
    }

    open spec fn enc_ok(&self, src: Seq<u8>) -> bool {
        true
    }

    open spec fn dec_ok(&self, src: Seq<u8>) -> bool {
        true
    }

    open spec fn spec_enc(&self, src: Seq<u8>) -> Seq<u8> {
        spec_caesar_enc(self@, src)
    }

    open spec fn spec_dec(&self, src: Seq<u8>) -> Seq<u8> {
        spec_caesar_dec(self@, src)
    }

    fn block_size(&self) -> (n: usize) {
        1
    }

    fn encrypt(&self, dst: &mut Vec<u8>, src: &[u8]) -> (n: usize) {
        let len: usize = src.len();
        let mut i: usize = 0;
        while i < len
            invariant
                self.wf(),
                len == src@.len(),
                i <= len,
                dst@.len() == old(dst)@.len() >= len,
                forall|k: int| 0 <= k < i ==> dst@[k] == spec_caesar_enc_byte(self@, src@[k]),
                forall|k: int| i <= k < dst@.len() ==> dst@[k] == old(dst)@[k],
            decreases len - i,
        {
            dst[i] = self.enc[src[i] as usize];
            i = i + 1;
        }
        proof {
            assert(dst@.subrange(0, len as int) =~= spec_caesar_enc(self@, src@));
            assert(dst@.skip(len as int) =~= old(dst)@.skip(len as int));
        }
        len
    }

    fn decrypt(&self, dst: &mut Vec<u8>, src: &[u8]) -> (n: usize) {
        let len: usize = src.len();
        let mut i: usize = 0;
        while i < len
            invariant
                self.wf(),
                len == src@.len(),
                i <= len,
                dst@.len() == old(dst)@.len() >= len,
                forall|k: int| 0 <= k < i ==> dst@[k] == spec_caesar_dec_byte(self@, src@[k]),
                forall|k: int| i <= k < dst@.len() ==> dst@[k] == old(dst)@[k],
            decreases len - i,
        {
            dst[i] = self.dec[src[i] as usize];
            i = i + 1;
        }
        proof {
            assert(dst@.subrange(0, len as int) =~= spec_caesar_dec(self@, src@));
            assert(dst@.skip(len as int) =~= old(dst)@.skip(len as int));
        }
        len
    }
}

/// The Caesar transforms are inverses on every buffer.
pub proof fn lemma_caesar_round_trip(key: u8, src: Seq<u8>)
    ensures
        spec_caesar_dec(key, spec_caesar_enc(key, src)) == src,
{
    assert forall|i: int| 0 <= i < src.len() implies spec_caesar_dec(
        key,
        spec_caesar_enc(key, src),
    )[i] == src[i] by {
        let b = src[i];
        if is_upper(b) {
            let e = spec_caesar_enc_byte(key, b);
            assert(spec_caesar_dec_byte(key, e) == b) by {
                assert((((b - 65) + key) % 26 + 26 - (key as int) % 26) % 26 == (b - 65) as int)
                    by (nonlinear_arith)
                    requires
                        65 <= b <= 90,
                ;
            }
        }
    }
    assert(spec_caesar_dec(key, spec_caesar_enc(key, src)) =~= src);
}

} // verus!
