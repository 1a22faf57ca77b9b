//! The nihilist cipher: a straddling checkerboard followed by a regular
//! columnar transposition.

use vstd::prelude::*;

use crate::straddling::StraddlingCheckerboard;
use crate::transposition::Transposition;

verus! {

use vstd::string::StringSliceAdditionalSpecFns;
use crate::Block;
use crate::helpers::spec_rank;
use crate::straddling::{
    is_digit,
    sc_wf,
    spec_sc_build,
    spec_sc_enc,
    spec_sc_dec,
    spec_default_freq,
    spec_default_alphabet,
    ScView,
};
use crate::transposition::{is_perm, spec_trans_enc, spec_trans_dec, lemma_trans_enc_len};

/// A nihilist cipher: checkerboard then transposition.
pub struct Nihilist {
    sc: StraddlingCheckerboard,
    transp: Transposition,
}

impl View for Nihilist {
    type V = (ScView, Seq<u8>);

    /// The cipher is modelled by its checkerboard model and the
    /// transposition's rank sequence.
    closed spec fn view(&self) -> (ScView, Seq<u8>) {
        (self.sc@, self.transp@)
    }
}

impl Nihilist {
    /// Creates a new nihilist cipher from the checkerboard key, the
    /// transposition key and the two prefix digits.
    pub fn new(key1: &str, key2: &str, chrs: &str) -> (r: Result<Self, String>)
        requires
            key1.is_ascii(),
            chrs.is_ascii(),
            key1@.len() <= 100000000,
            chrs@.len() <= 100000000,
            key2.spec_bytes().len() <= 256,
            chrs.spec_bytes().len() >= 2 ==> is_digit(chrs.spec_bytes()[0]) && is_digit(
                chrs.spec_bytes()[1],
            ),
        ensures
            match r {
                Ok(c) => key1.spec_bytes().len() > 0 && chrs.spec_bytes().len() >= 2
                    && key2.spec_bytes().len() > 0 && c.wf() && c@.0 == spec_sc_build(
                    key1.spec_bytes(),
                    chrs.spec_bytes(),
                    spec_default_freq(),
                    spec_default_alphabet(),
                ) && c@.1 == spec_rank(key2.spec_bytes()),
                Err(_) => key1.spec_bytes().len() == 0 || chrs.spec_bytes().len() < 2
                    || key2.spec_bytes().len() == 0,
            },
    {
        let sc = match StraddlingCheckerboard::new(key1, chrs) {
            Ok(sc) => sc,
            Err(e) => {
                return Err(e);
            },
        };
        let transp = match Transposition::new(key2) {
            Ok(t) => t,
            Err(e) => {
                return Err(e);
            },
        };
        Ok(Nihilist { sc, transp })
    }
}

impl Block for Nihilist {
    open spec fn wf(&self) -> bool {
        &&& sc_wf(self@.0)
        &&& 1 <= self@.1.len() <= 256
        &&& is_perm(self@.1)
    }

    open spec fn spec_block_size(&self) -> int {
        self@.1.len() as int
    }

    open spec fn enc_ok(&self, src: Seq<u8>) -> bool {
        &&& spec_sc_enc(self@.0, src).len() <= 2 * src.len()
        &&& src.len() * 2 <= usize::MAX
    }

    open spec fn dec_ok(&self, src: Seq<u8>) -> bool {
        src.len() <= usize::MAX - 8
    }

    open spec fn spec_enc(&self, src: Seq<u8>) -> Seq<u8> {
        spec_trans_enc(self@.1, spec_sc_enc(self@.0, src))
    }

    open spec fn spec_dec(&self, src: Seq<u8>) -> Seq<u8> {
        spec_sc_dec(self@.0, spec_trans_dec(self@.1, src))
    }

    fn block_size(&self) -> (n: usize) {
        self.transp.block_size()
    }

    fn encrypt(&self, dst: &mut Vec<u8>, src: &[u8]) -> (n: usize) {
        let mut buf: Vec<u8> = vec![0u8; 2 * src.len()];
        let n: usize = self.sc.encrypt(&mut buf, src);
        let part: &[u8] = vstd::slice::slice_subrange(buf.as_slice(), 0, n);
        proof {
            lemma_trans_enc_len(self@.1, part@);
        }
        self.transp.encrypt(dst, part)
    }

    fn decrypt(&self, dst: &mut Vec<u8>, src: &[u8]) -> (n: usize) {
        let mut buf: Vec<u8> = vec![0u8; src.len()];
        let n: usize = self.transp.decrypt(&mut buf, src);
        let part: &[u8] = vstd::slice::slice_subrange(buf.as_slice(), 0, n);
        self.sc.decrypt(dst, part)
    }
}

} // verus!
