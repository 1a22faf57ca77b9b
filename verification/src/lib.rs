//! Classical pencil-and-paper ciphers with verified transforms.
//!
//! Every cipher exposes the same transform contract through the [`Block`]
//! trait: report a block size, encrypt a byte buffer into a destination
//! buffer, and decrypt the inverse.  The core of the crate is the VIC
//! cipher pipeline (straddling checkerboard, regular columnar transposition,
//! irregular triangular transposition, and its numeric key schedule).

use vstd::prelude::*;

pub mod helpers;
mod adfgvx;
mod caesar;
mod chaocipher;
mod nihilist;
mod null;
mod playfair;
mod sigaba;
mod solitaire;
mod square;
mod straddling;
mod transposition;
mod vic;
mod wheatstone;

pub use adfgvx::ADFGVX;
pub use caesar::CaesarCipher;
pub use caesar::expand_key;
pub use chaocipher::Chaocipher;
pub use nihilist::Nihilist;
pub use null::NullCipher;
pub use playfair::PlayfairCipher;
pub use sigaba::Sigaba;
pub use solitaire::Solitaire;
pub use square::SquareCipher;
pub use straddling::StraddlingCheckerboard;
pub use transposition::IrregularTransposition;
pub use transposition::Transposition;
pub use vic::VicCipher;
pub use vic::{addmod10_inplace, chainadd_extend, chainadd_inplace, first_encode, str2int, submod10};
pub use wheatstone::Wheatstone;

verus! {

/// The uniform transform contract shared by every cipher in the crate.
///
/// Each implementation supplies a mathematical model of itself:
/// `wf` says when the cipher is usable, `spec_enc`/`spec_dec` give the
/// exact byte sequences produced by `encrypt`/`decrypt`, and
/// `enc_ok`/`dec_ok` delimit the inputs each transform accepts.
pub trait Block: Sized {
    /// The cipher's construction invariant.
    spec fn wf(&self) -> bool;

    /// The advisory block size reported by `block_size`.
    spec fn spec_block_size(&self) -> int;

    /// Source buffers that `encrypt` accepts.
    spec fn enc_ok(&self, src: Seq<u8>) -> bool;

    /// Source buffers that `decrypt` accepts.
    spec fn dec_ok(&self, src: Seq<u8>) -> bool;

    /// The exact ciphertext produced for a source buffer.
    spec fn spec_enc(&self, src: Seq<u8>) -> Seq<u8>;

    /// The exact plaintext produced for a source buffer.
    spec fn spec_dec(&self, src: Seq<u8>) -> Seq<u8>;

    fn block_size(&self) -> (n: usize)
        requires
            self.wf(),
        ensures
            n as int == self.spec_block_size(),
    ;

    fn encrypt(&self, dst: &mut Vec<u8>, src: &[u8]) -> (n: usize)
        requires
            self.wf(),
            self.enc_ok(src@),
            old(dst)@.len() >= self.spec_enc(src@).len(),
        ensures
            n == self.spec_enc(src@).len(),
            final(dst)@.len() == old(dst)@.len(),
            final(dst)@.subrange(0, n as int) == self.spec_enc(src@),
            final(dst)@.skip(n as int) == old(dst)@.skip(n as int),
    ;

    fn decrypt(&self, dst: &mut Vec<u8>, src: &[u8]) -> (n: usize)
        requires
            self.wf(),
            self.dec_ok(src@),
            old(dst)@.len() >= self.spec_dec(src@).len(),
        ensures
            n == self.spec_dec(src@).len(),
            final(dst)@.len() == old(dst)@.len(),
            final(dst)@.subrange(0, n as int) == self.spec_dec(src@),
            final(dst)@.skip(n as int) == old(dst)@.skip(n as int),
    ;
}

} // verus!
