//! The null cipher: the identity transform, useful as a baseline peer of
//! the real ciphers.

use vstd::prelude::*;

verus! {

use crate::Block;

/// The identity cipher.
pub struct NullCipher;

impl NullCipher {
    /// Creates a new null cipher.
    pub fn new() -> (c: Self)
        ensures
            c.wf(),
    {
        NullCipher
    }
}

impl Block for NullCipher {
    open spec fn wf(&self) -> bool {
        true
    }

    open spec fn spec_block_size(&self) -> int {
        1
    }

    open spec fn enc_ok(&self, src: Seq<u8>) -> bool {
        true
    }

    open spec fn dec_ok(&self, src: Seq<u8>) -> bool {
        true
    }

    open spec fn spec_enc(&self, src: Seq<u8>) -> Seq<u8> {
        src
    }

    open spec fn spec_dec(&self, src: Seq<u8>) -> Seq<u8> {
        src
    }

    fn block_size(&self) -> (n: usize) {
        1
    }

    fn encrypt(&self, dst: &mut Vec<u8>, src: &[u8]) -> (n: usize) {
        crate::straddling::copy_into(dst, src)
    }

    fn decrypt(&self, dst: &mut Vec<u8>, src: &[u8]) -> (n: usize) {
        crate::straddling::copy_into(dst, src)
    }
}

} // verus!
