//! The ADFGVX cipher: a six-by-six Polybius square over the letters
//! A D F G V X, followed by a regular columnar transposition.

use vstd::prelude::*;

use crate::helpers;
use crate::square::SquareCipher;
use crate::transposition::Transposition;

verus! {

use vstd::string::StringSliceAdditionalSpecFns;
use crate::Block;
use crate::helpers::spec_rank;
use crate::square::{sq_wf, sq_enc_ok, sq_dec_ok, spec_sq_build, spec_sq_enc, spec_sq_dec, SqView};
use crate::transposition::{is_perm, spec_trans_enc, spec_trans_dec, lemma_trans_enc_len};

/// The six coordinate letters A, D, F, G, V, X.
pub open spec fn spec_adfgvx_chars() -> Seq<u8> {
    seq![65u8, 68u8, 70u8, 71u8, 86u8, 88u8]
}

proof fn lemma_adfgvx_chars(chrs: &str)
    requires
        chrs@ == "ADFGVX"@,
    ensures
        chrs.is_ascii(),
        chrs.spec_bytes() == spec_adfgvx_chars(),
        chrs@.len() == 6,
{
    reveal_strlit("ADFGVX");
    assert(vstd::utf8::is_ascii_chars(chrs@));
    helpers::lemma_ascii_bytes(chrs);
    assert(chrs.spec_bytes() =~= spec_adfgvx_chars());
}

/// An ADFGVX cipher: square substitution then transposition.
pub struct ADFGVX {
    sqr: SquareCipher,
    transp: Transposition,
}

impl View for ADFGVX {
    type V = (SqView, Seq<u8>);

    /// The cipher is modelled by its square model and the transposition's
    /// rank sequence.
    closed spec fn view(&self) -> (SqView, Seq<u8>) {
        (self.sqr@, self.transp@)
    }
}

impl ADFGVX {
    /// Creates a new ADFGVX cipher from the square keyword and the
    /// transposition key.
    pub fn new(key1: &str, key2: &str) -> (r: Result<Self, String>)
        requires
            key1.is_ascii(),
            key1@.len() <= 100000000,
            key2.spec_bytes().len() <= 256,
        ensures
            match r {
                Ok(c) => key1.spec_bytes().len() > 0 && key2.spec_bytes().len() > 0 && c.wf()
                    && c@.0 == spec_sq_build(key1.spec_bytes(), spec_adfgvx_chars()) && c@.1
                    == spec_rank(key2.spec_bytes()),
                Err(_) => key1.spec_bytes().len() == 0 || key2.spec_bytes().len() == 0,
            },
    {
        let chrs = "ADFGVX";
        proof {
            lemma_adfgvx_chars(chrs);
        }
        let sqr = match SquareCipher::new(key1, chrs) {
            Ok(s) => s,
            Err(e) => {
                return Err(e);
            },
        };
        let transp = match Transposition::new(key2) {
            Ok(t) => t,
            Err(e) => {
                return Err(e);
            },
        };
        Ok(ADFGVX { sqr, transp })
    }
}

impl Block for ADFGVX {
    open spec fn wf(&self) -> bool {
        &&& sq_wf(self@.0)
        &&& 1 <= self@.1.len() <= 256
        &&& is_perm(self@.1)
    }

    open spec fn spec_block_size(&self) -> int {
        self@.1.len() as int
    }

    open spec fn enc_ok(&self, src: Seq<u8>) -> bool {
        &&& sq_enc_ok(self@.0, src)
        &&& src.len() * 2 <= usize::MAX
    }

    open spec fn dec_ok(&self, src: Seq<u8>) -> bool {
        sq_dec_ok(self@.0, spec_trans_dec(self@.1, src))
    }

    open spec fn spec_enc(&self, src: Seq<u8>) -> Seq<u8> {
        spec_trans_enc(self@.1, spec_sq_enc(self@.0, src))
    }

    open spec fn spec_dec(&self, src: Seq<u8>) -> Seq<u8> {
        spec_sq_dec(self@.0, spec_trans_dec(self@.1, src))
    }

    fn block_size(&self) -> (n: usize) {
        self.transp.block_size()
    }

    fn encrypt(&self, dst: &mut Vec<u8>, src: &[u8]) -> (n: usize) {
        let mut buf: Vec<u8> = vec![0u8; 2 * src.len()];
        let n: usize = self.sqr.encrypt(&mut buf, src);
        let part: &[u8] = vstd::slice::slice_subrange(buf.as_slice(), 0, n);
        proof {
            lemma_trans_enc_len(self@.1, part@);
        }
        self.transp.encrypt(dst, part)
    }

    fn decrypt(&self, dst: &mut Vec<u8>, src: &[u8]) -> (n: usize) {
        let mut buf: Vec<u8> = vec![0u8; src.len()];
        let n: usize = self.transp.decrypt(&mut buf, src);
        let part: &[u8] = vstd::slice::slice_subrange(buf.as_slice(), 0, n);
        self.sqr.decrypt(dst, part)
    }
}

} // verus!
