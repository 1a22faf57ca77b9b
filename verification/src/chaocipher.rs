//! The chaocipher: two 26-letter alphabets, one for plaintext and one for
//! ciphertext, permuted after every letter by rotations and a fixed
//! zenith-to-nadir shift.

use vstd::prelude::*;

use crate::helpers;

verus! {

use vstd::string::StringSliceAdditionalSpecFns;
use crate::Block;

/// A left rotation by `n` places.
pub open spec fn spec_rotl(s: Seq<u8>, n: int) -> Seq<u8> {
    if s.len() == 0 {
        s
    } else {
        let k = n % (s.len() as int);
        s.skip(k) + s.take(k)
    }
}

/// The permutation of the ciphertext alphabet after a letter at `idx`: the
/// alphabet rotates by `idx`, and the letters between zenith and nadir
/// shift one place up, the freed letter dropping to the nadir.
pub open spec fn spec_chao_cw(cw: Seq<u8>, idx: int) -> Seq<u8> {
    let r = spec_rotl(cw, idx);
    r.take(1) + r.subrange(2, 14) + seq![r[1]] + r.skip(14)
}

/// The permutation of the plaintext alphabet after a letter at `idx`: the
/// alphabet rotates by `idx + 1`, and the letters two past the zenith up
/// to the nadir shift one place up, the freed letter dropping to the
/// nadir.
pub open spec fn spec_chao_pw(pw: Seq<u8>, idx: int) -> Seq<u8> {
    let r = spec_rotl(pw, idx + 1);
    r.take(2) + r.subrange(3, 14) + seq![r[2]] + r.skip(14)
}

/// The position of a byte, or zero when absent.
pub open spec fn chao_first(s: Seq<u8>, ch: u8, i: int) -> int
    decreases s.len() - i,
{
    if i < 0 || i >= s.len() {
        0
    } else if s[i] == ch {
        i
    } else {
        chao_first(s, ch, i + 1)
    }
}

/// One step: look the letter up in one alphabet, emit the letter of the
/// other at the same place, then permute both.
pub open spec fn chao_step(pw: Seq<u8>, cw: Seq<u8>, enc: bool, ch: u8) -> (Seq<u8>, Seq<u8>, u8) {
    let idx = if enc {
        chao_first(pw, ch, 0)
    } else {
        chao_first(cw, ch, 0)
    };
    let out = if enc {
        cw[idx]
    } else {
        pw[idx]
    };
    (spec_chao_pw(pw, idx), spec_chao_cw(cw, idx), out)
}

/// The buffer transformed letter by letter from the given alphabets.
pub open spec fn spec_chao_crypt(pw: Seq<u8>, cw: Seq<u8>, enc: bool, src: Seq<u8>) -> Seq<u8>
    decreases src.len(),
{
    if src.len() == 0 {
        Seq::empty()
    } else {
        let st = chao_step(pw, cw, enc, src[0]);
        seq![st.2] + spec_chao_crypt(st.0, st.1, enc, src.skip(1))
    }
}

proof fn lemma_chao_len(pw: Seq<u8>, cw: Seq<u8>, enc: bool, src: Seq<u8>)
    ensures
        spec_chao_crypt(pw, cw, enc, src).len() == src.len(),
    decreases src.len(),
{
    if src.len() > 0 {
        let st = chao_step(pw, cw, enc, src[0]);
        lemma_chao_len(st.0, st.1, enc, src.skip(1));
    }
}

/// The alphabets keep their 26 places through a step.
proof fn lemma_chao_step_wf(pw: Seq<u8>, cw: Seq<u8>, enc: bool, ch: u8)
    requires
        pw.len() == 26,
        cw.len() == 26,
    ensures
        chao_step(pw, cw, enc, ch).0.len() == 26,
        chao_step(pw, cw, enc, ch).1.len() == 26,
{
    let idx = if enc {
        chao_first(pw, ch, 0)
    } else {
        chao_first(cw, ch, 0)
    };
    lemma_chao_first(pw, ch, 0);
    lemma_chao_first(cw, ch, 0);
    vstd::arithmetic::div_mod::lemma_mod_bound(idx, 26);
    vstd::arithmetic::div_mod::lemma_mod_bound(idx + 1, 26);
}

proof fn lemma_chao_first(s: Seq<u8>, ch: u8, i: int)
    requires
        0 <= i <= s.len(),
    ensures
        0 <= chao_first(s, ch, i),
        chao_first(s, ch, i) < s.len() || s.len() == 0,
    decreases s.len() - i,
{
    if 0 <= i < s.len() && s[i] != ch {
        lemma_chao_first(s, ch, i + 1);
    }
}

/// A chaocipher with its two keyed alphabets.
pub struct Chaocipher {
    pkey: Vec<u8>,
    ckey: Vec<u8>,
}

impl View for Chaocipher {
    type V = (Seq<u8>, Seq<u8>);

    /// The cipher is modelled by its plaintext and ciphertext alphabets.
    closed spec fn view(&self) -> (Seq<u8>, Seq<u8>) {
        (self.pkey@, self.ckey@)
    }
}

impl Chaocipher {
    /// Creates a new chaocipher from the two 26-letter alphabets.
    pub fn new(pkey: &str, ckey: &str) -> (r: Result<Self, String>)
        requires
            pkey.is_ascii(),
            ckey.is_ascii(),
            pkey@.len() <= 100000000,
            ckey@.len() <= 100000000,
        ensures
            match r {
                Ok(c) => pkey.spec_bytes().len() == 26 && ckey.spec_bytes().len() == 26 && c.wf()
                    && c@.0 == pkey.spec_bytes() && c@.1 == ckey.spec_bytes(),
                Err(_) => pkey.spec_bytes().len() != 26 || ckey.spec_bytes().len() != 26,
            },
    {
        proof {
            helpers::lemma_ascii_bytes(pkey);
            helpers::lemma_ascii_bytes(ckey);
        }
        if pkey.len() != 26 || ckey.len() != 26 {
            return Err("bad alphabet length".to_owned());
        }
        Ok(Chaocipher { pkey: pkey.as_bytes_vec(), ckey: ckey.as_bytes_vec() })
    }

    /// Rotates an alphabet left by `n` places into a fresh vector.
    fn rotl(a: &Vec<u8>, n: usize) -> (r: Vec<u8>)
        requires
            a@.len() >= 1,
        ensures
            r@ == spec_rotl(a@, n as int),
    {
        let len: usize = a.len();
        let k: usize = n % len;
        let mut r: Vec<u8> = Vec::new();
        let mut i: usize = k;
        while i < len
            invariant
                len == a@.len() >= 1,
                k < len,
                k <= i <= len,
                r@ == a@.subrange(k as int, i as int),
            decreases len - i,
        {
            r.push(a[i]);
            proof {
                assert(r@ =~= a@.subrange(k as int, i as int + 1));
            }
            i = i + 1;
        }
        let mut j: usize = 0;
        while j < k
            invariant
                len == a@.len() >= 1,
                k < len,
                j <= k,
                r@ == a@.subrange(k as int, len as int) + a@.subrange(0, j as int),
            decreases k - j,
        {
            r.push(a[j]);
            proof {
                assert(r@ =~= a@.subrange(k as int, len as int) + a@.subrange(0, j as int + 1));
            }
            j = j + 1;
        }
        proof {
            assert(a@.subrange(k as int, len as int) =~= a@.skip(k as int));
            assert(a@.subrange(0, k as int) =~= a@.take(k as int));
        }
        r
    }

    /// Applies the zenith-to-nadir shift: positions `lo` to 13 move one up
    /// and the freed letter drops to the nadir.
    fn nadir_shift(a: &Vec<u8>, lo: usize) -> (r: Vec<u8>)
        requires
            a@.len() == 26,
            1 <= lo <= 2,
        ensures
            r@ == a@.take(lo as int) + a@.subrange(lo as int + 1, 14) + seq![a@[lo as int]]
                + a@.skip(14),
    {
        let mut r: Vec<u8> = Vec::new();
        let mut i: usize = 0;
        while i < lo
            invariant
                a@.len() == 26,
                lo <= 2,
                i <= lo,
                r@ == a@.subrange(0, i as int),
            decreases lo - i,
        {
            r.push(a[i]);
            proof {
                assert(r@ =~= a@.subrange(0, i as int + 1));
            }
            i = i + 1;
        }
        let mut j: usize = lo + 1;
        while j < 14
            invariant
                a@.len() == 26,
                1 <= lo <= 2,
                lo + 1 <= j <= 14,
                r@ == a@.subrange(0, lo as int) + a@.subrange(lo as int + 1, j as int),
            decreases 14 - j,
        {
            r.push(a[j]);
            proof {
                assert(r@ =~= a@.subrange(0, lo as int) + a@.subrange(lo as int + 1, j as int + 1));
            }
            j = j + 1;
        }
        r.push(a[lo]);
        let mut t: usize = 14;
        while t < 26
            invariant
                a@.len() == 26,
                1 <= lo <= 2,
                14 <= t <= 26,
                r@ == a@.subrange(0, lo as int) + a@.subrange(lo as int + 1, 14) + seq![
                    a@[lo as int],
                ] + a@.subrange(14, t as int),
            decreases 26 - t,
        {
            r.push(a[t]);
            proof {
                assert(r@ =~= a@.subrange(0, lo as int) + a@.subrange(lo as int + 1, 14) + seq![
                    a@[lo as int],
                ] + a@.subrange(14, t as int + 1));
            }
            t = t + 1;
        }
        proof {
            assert(a@.subrange(0, lo as int) =~= a@.take(lo as int));
            assert(a@.subrange(14, 26) =~= a@.skip(14));
        }
        r
    }

    /// The position of a byte in an alphabet, or zero when absent.
    fn find_idx(a: &Vec<u8>, ch: u8) -> (p: usize)
        requires
            a@.len() >= 1,
        ensures
            p as int == chao_first(a@, ch, 0),
            p < a@.len(),
    {
        let n: usize = a.len();
        let mut i: usize = 0;
        while i < n
            invariant
                n == a@.len(),
                i <= n,
                chao_first(a@, ch, 0) == chao_first(a@, ch, i as int),
                forall|k: int| 0 <= k < i ==> a@[k] != ch,
            decreases n - i,
        {
            if a[i] == ch {
                return i;
            }
            i = i + 1;
        }
        0
    }

    /// Transforms a buffer letter by letter with fresh working alphabets.
    fn crypt(&self, enc: bool, dst: &mut Vec<u8>, src: &[u8]) -> (n: usize)
        requires
            self.wf(),
            old(dst)@.len() >= src@.len(),
        ensures
            n == src@.len(),
            final(dst)@.len() == old(dst)@.len(),
            final(dst)@.subrange(0, n as int) == spec_chao_crypt(self@.0, self@.1, enc, src@),
            final(dst)@.skip(n as int) == old(dst)@.skip(n as int),
    {
        let ghost out = spec_chao_crypt(self@.0, self@.1, enc, src@);
        proof {
            lemma_chao_len(self@.0, self@.1, enc, src@);
            assert(src@.skip(0) =~= src@);
        }
        let mut pw: Vec<u8> = Vec::new();
        pw.extend_from_slice(self.pkey.as_slice());
        let mut cw: Vec<u8> = Vec::new();
        cw.extend_from_slice(self.ckey.as_slice());
        proof {
            assert(pw@ =~= self@.0);
            assert(cw@ =~= self@.1);
        }
        let len: usize = src.len();
        let mut i: usize = 0;
        while i < len
            invariant
                self.wf(),
                len == src@.len(),
                i <= len,
                pw@.len() == 26,
                cw@.len() == 26,
                out == spec_chao_crypt(self@.0, self@.1, enc, src@),
                out.len() == len,
                dst@.len() == old(dst)@.len() >= len,
                spec_chao_crypt(pw@, cw@, enc, src@.skip(i as int)) == out.skip(i as int),
                forall|k: int| 0 <= k < i ==> dst@[k] == out[k],
                forall|k: int| i <= k < dst@.len() ==> dst@[k] == old(dst)@[k],
            decreases len - i,
        {
            let ghost rest = src@.skip(i as int);
            proof {
                assert(rest[0] == src@[i as int]);
                assert(rest.skip(1) =~= src@.skip(i as int + 1));
                assert(out.skip(i as int)[0] == out[i as int]);
                assert(out.skip(i as int).skip(1) =~= out.skip(i as int + 1));
                lemma_chao_step_wf(pw@, cw@, enc, src@[i as int]);
            }
            let ghost pw0 = pw@;
            let ghost cw0 = cw@;
            let ch: u8 = src[i];
            let idx: usize = if enc {
                Self::find_idx(&pw, ch)
            } else {
                Self::find_idx(&cw, ch)
            };
            let pt: u8 = if enc {
                cw[idx]
            } else {
                pw[idx]
            };
            dst[i] = pt;
            let cw1 = Self::rotl(&cw, idx);
            cw = Self::nadir_shift(&cw1, 1);
            let pw1 = Self::rotl(&pw, idx + 1);
            pw = Self::nadir_shift(&pw1, 2);
            proof {
                let step = chao_step(pw0, cw0, enc, ch);
                vstd::arithmetic::div_mod::lemma_mod_bound(idx as int, 26);
                vstd::arithmetic::div_mod::lemma_mod_bound(idx as int + 1, 26);
                assert(cw@ == spec_chao_cw(cw0, idx as int));
                assert(pw@ == spec_chao_pw(pw0, idx as int));
                assert(pw@ == step.0 && cw@ == step.1 && pt == step.2);
            }
            i = i + 1;
        }
        proof {
            assert(dst@.subrange(0, len as int) =~= out);
            assert(dst@.skip(len as int) =~= old(dst)@.skip(len as int));
        }
        len
    }
}

impl Block for Chaocipher {
    open spec fn wf(&self) -> bool {
        &&& self@.0.len() == 26
        &&& self@.1.len() == 26
    }

    open spec fn spec_block_size(&self) -> int {
        1
    }

    open spec fn enc_ok(&self, src: Seq<u8>) -> bool {
        true
    }

    open spec fn dec_ok(&self, src: Seq<u8>) -> bool {
        true
    }

    open spec fn spec_enc(&self, src: Seq<u8>) -> Seq<u8> {
        spec_chao_crypt(self@.0, self@.1, true, src)
    }

    open spec fn spec_dec(&self, src: Seq<u8>) -> Seq<u8> {
        spec_chao_crypt(self@.0, self@.1, false, src)
    }

    fn block_size(&self) -> (n: usize) {
        1
    }

    fn encrypt(&self, dst: &mut Vec<u8>, src: &[u8]) -> (n: usize) {
        proof {
            lemma_chao_len(self@.0, self@.1, true, src@);
        }
        self.crypt(true, dst, src)
    }

    fn decrypt(&self, dst: &mut Vec<u8>, src: &[u8]) -> (n: usize) {
        proof {
            lemma_chao_len(self@.0, self@.1, false, src@);
        }
        self.crypt(false, dst, src)
    }
}

} // verus!
