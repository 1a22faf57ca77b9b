//! The square (Polybius) cipher: a fractionating substitution that encodes
//! each plaintext character as a two-character bigram of row and column
//! coordinates in a keyed grid.

use vstd::prelude::*;

use crate::helpers;

verus! {

use vstd::string::StringSliceAdditionalSpecFns;
use crate::Block;
use crate::helpers::spec_condense;

/// The letters A to Z followed by the digits 0 to 9.
pub open spec fn spec_base36() -> Seq<u8> {
    Seq::new(26, |i: int| (65 + i) as u8) + Seq::new(10, |i: int| (48 + i) as u8)
}

/// The square's tables: a code for each plain byte and a plain byte for
/// each bigram.
pub struct SqTabs {
    /// Code length for each byte: 0 (unmapped) or 2.
    pub enc_len: Seq<u8>,
    /// Row coordinate for each byte.
    pub enc0: Seq<u8>,
    /// Column coordinate for each byte.
    pub enc1: Seq<u8>,
    /// Plain byte for each bigram (row byte * 256 + column byte).
    pub dec: Seq<u8>,
}

/// The empty tables.
pub open spec fn sq_tabs_init() -> SqTabs {
    SqTabs {
        enc_len: Seq::new(256, |i: int| 0u8),
        enc0: Seq::new(256, |i: int| 0u8),
        enc1: Seq::new(256, |i: int| 0u8),
        dec: Seq::new(65536, |i: int| 0u8),
    }
}

/// The tables after placing the first `n` grid cells: cell `ind` holds the
/// alphabet letter at `ind` and is addressed by the coordinate characters
/// at `ind / klen` and `ind % klen`.
pub open spec fn sq_tables(alpha: Seq<u8>, chrs: Seq<u8>, n: int) -> SqTabs
    decreases n,
{
    let klen = chrs.len() as int;
    if n <= 0 || klen <= 0 {
        sq_tabs_init()
    } else {
        let t = sq_tables(alpha, chrs, n - 1);
        let ind = n - 1;
        if ind < alpha.len() {
            let ch = alpha[ind];
            let b0 = chrs[ind / klen];
            let b1 = chrs[ind % klen];
            SqTabs {
                enc_len: t.enc_len.update(ch as int, 2),
                enc0: t.enc0.update(ch as int, b0),
                enc1: t.enc1.update(ch as int, b1),
                dec: t.dec.update(b0 * 256 + b1, ch),
            }
        } else {
            t
        }
    }
}

/// The model of a square cipher: its key, coordinate characters, condensed
/// alphabet and tables.
pub struct SqView {
    /// The keyword's bytes.
    pub key: Seq<u8>,
    /// The coordinate characters.
    pub chrs: Seq<u8>,
    /// The condensed alphabet filling the grid.
    pub alpha: Seq<u8>,
    /// The code tables.
    pub tabs: SqTabs,
}

/// The model built by the constructor.
pub open spec fn spec_sq_build(keyb: Seq<u8>, chrsb: Seq<u8>) -> SqView {
    let alpha = spec_condense(keyb + spec_base36());
    let klen = chrsb.len() as int;
    SqView { key: keyb, chrs: chrsb, alpha: alpha, tabs: sq_tables(alpha, chrsb, klen * klen) }
}

/// A well-formed square model.
pub open spec fn sq_wf(v: SqView) -> bool {
    &&& v.key.len() >= 1
    &&& v.key.len() <= 100000000
    &&& v.chrs.len() >= 1
    &&& v.tabs.enc_len.len() == 256
    &&& v.tabs.enc0.len() == 256
    &&& v.tabs.enc1.len() == 256
    &&& v.tabs.dec.len() == 65536
}

/// Every source byte has a bigram assigned.
pub open spec fn sq_enc_ok(v: SqView, src: Seq<u8>) -> bool {
    forall|i: int| 0 <= i < src.len() ==> v.tabs.enc_len[#[trigger] src[i] as int] == 2
}

/// The bigram stream of a fully mapped source.
pub open spec fn spec_sq_enc(v: SqView, src: Seq<u8>) -> Seq<u8> {
    Seq::new(
        2 * src.len(),
        |k: int|
            if k % 2 == 0 {
                v.tabs.enc0[src[k / 2] as int]
            } else {
                v.tabs.enc1[src[k / 2] as int]
            },
    )
}

/// Every bigram of the source decodes to a mapped byte.
pub open spec fn sq_dec_ok(v: SqView, src: Seq<u8>) -> bool {
    &&& src.len() % 2 == 0
    &&& forall|i: int|
        0 <= i < src.len() / 2 ==> v.tabs.dec[#[trigger] (src[2 * i] * 256 + src[2 * i + 1])]
            != 0
}

/// The plain bytes recovered from a bigram stream.
pub open spec fn spec_sq_dec(v: SqView, src: Seq<u8>) -> Seq<u8> {
    Seq::new(src.len() / 2, |i: int| v.tabs.dec[src[2 * i] * 256 + src[2 * i + 1]])
}

/// A square (Polybius) cipher.
pub struct SquareCipher {
    key: String,
    chrs: String,
    alpha: Vec<u8>,
    enc_len: Vec<u8>,
    enc0: Vec<u8>,
    enc1: Vec<u8>,
    dec: Vec<u8>,
}

impl View for SquareCipher {
    type V = SqView;

    /// The cipher is modelled by its key, coordinates, alphabet and tables.
    closed spec fn view(&self) -> SqView {
        SqView {
            key: vstd::utf8::encode_utf8(self.key@),
            chrs: vstd::utf8::encode_utf8(self.chrs@),
            alpha: self.alpha@,
            tabs: SqTabs {
                enc_len: self.enc_len@,
                enc0: self.enc0@,
                enc1: self.enc1@,
                dec: self.dec@,
            },
        }
    }
}

proof fn lemma_sq_tabs_lens(alpha: Seq<u8>, chrs: Seq<u8>, n: int)
    ensures
        ({
            let t = sq_tables(alpha, chrs, n);
            t.enc_len.len() == 256 && t.enc0.len() == 256 && t.enc1.len() == 256 && t.dec.len()
                == 65536
        }),
    decreases n,
{
    if n > 0 && chrs.len() > 0 {
        lemma_sq_tabs_lens(alpha, chrs, n - 1);
    }
}

impl SquareCipher {
    /// Creates a new square cipher from a keyword and a coordinate
    /// character set; neither may be empty.
    pub fn new(key: &str, chrs: &str) -> (r: Result<Self, String>)
        requires
            key.is_ascii(),
            chrs.is_ascii(),
            key@.len() <= 100000000,
            chrs@.len() <= 100,
        ensures
            match r {
                Ok(c) => key.spec_bytes().len() > 0 && chrs.spec_bytes().len() > 0 && c.wf()
                    && c@ == spec_sq_build(key.spec_bytes(), chrs.spec_bytes()),
                Err(_) => key.spec_bytes().len() == 0 || chrs.spec_bytes().len() == 0,
            },
    {
        proof {
            helpers::lemma_ascii_bytes(key);
            helpers::lemma_ascii_bytes(chrs);
        }
        if key.len() == 0 || chrs.len() == 0 {
            return Err("neither key nor chrs can be empty".to_owned());
        }
        let mut combined: Vec<u8> = Vec::new();
        combined.extend_from_slice(key.as_bytes());
        let mut b: u8 = 65;
        while b <= 90
            invariant
                65 <= b <= 91,
                combined@.len() == key.spec_bytes().len() + b - 65,
                combined@.subrange(0, key.spec_bytes().len() as int) == key.spec_bytes(),
                forall|k: int|
                    key.spec_bytes().len() <= k < combined@.len() ==> combined@[k] == 65 + (k
                        - key.spec_bytes().len()),
            decreases 91 - b,
        {
            combined.push(b);
            proof {
                assert(combined@.subrange(0, key.spec_bytes().len() as int) =~= key.spec_bytes());
            }
            b = b + 1;
        }
        let mut d: u8 = 48;
        while d <= 57
            invariant
                48 <= d <= 58,
                combined@.len() == key.spec_bytes().len() + 26 + d - 48,
                combined@.subrange(0, key.spec_bytes().len() as int) == key.spec_bytes(),
                forall|k: int|
                    key.spec_bytes().len() <= k < key.spec_bytes().len() + 26 ==> combined@[k]
                        == 65 + (k - key.spec_bytes().len()),
                forall|k: int|
                    key.spec_bytes().len() + 26 <= k < combined@.len() ==> combined@[k] == 48 + (
                    k - key.spec_bytes().len() - 26),
            decreases 58 - d,
        {
            combined.push(d);
            proof {
                assert(combined@.subrange(0, key.spec_bytes().len() as int) =~= key.spec_bytes());
            }
            d = d + 1;
        }
        proof {
            assert(combined@ =~= key.spec_bytes() + spec_base36());
        }
        let alpha: Vec<u8> = helpers::condense_bytes(combined.as_slice());
        let klen: usize = chrs.len();
        let chrs_b: &[u8] = chrs.as_bytes();
        let ghost chg = chrs.spec_bytes();
        let ghost alg = alpha@;
        let mut enc_len: Vec<u8> = vec![0u8; 256];
        let mut enc0: Vec<u8> = vec![0u8; 256];
        let mut enc1: Vec<u8> = vec![0u8; 256];
        let mut dec: Vec<u8> = vec![0u8; 65536];
        proof {
            assert(enc_len@ =~= sq_tabs_init().enc_len);
            assert(enc0@ =~= sq_tabs_init().enc0);
            assert(enc1@ =~= sq_tabs_init().enc1);
            assert(dec@ =~= sq_tabs_init().dec);
        }
        proof {
            assert((klen as int) * (klen as int) <= 10000) by (nonlinear_arith)
                requires
                    1 <= klen as int <= 100,
            ;
        }
        let total: usize = klen * klen;
        let mut ind: usize = 0;
        while ind < total
            invariant
                chg == chrs_b@,
                alg == alpha@,
                klen == chg.len(),
                1 <= klen <= 100,
                total == klen * klen,
                ind <= total,
                ({
                    let t = sq_tables(alg, chg, ind as int);
                    enc_len@ == t.enc_len && enc0@ == t.enc0 && enc1@ == t.enc1 && dec@ == t.dec
                }),
            decreases total - ind,
        {
            proof {
                lemma_sq_tabs_lens(alg, chg, ind as int);
                assert((ind as int) / (klen as int) < klen as int) by (nonlinear_arith)
                    requires
                        klen as int >= 1,
                        0 <= ind as int,
                        (ind as int) < (klen as int) * (klen as int),
                ;
                vstd::arithmetic::div_mod::lemma_mod_bound(ind as int, klen as int);
                vstd::arithmetic::div_mod::lemma_div_pos_is_pos(ind as int, klen as int);
            }
            if ind < alpha.len() {
                let ch: u8 = alpha[ind];
                let b0: u8 = chrs_b[ind / klen];
                let b1: u8 = chrs_b[ind % klen];
                enc_len[ch as usize] = 2;
                enc0[ch as usize] = b0;
                enc1[ch as usize] = b1;
                dec[(b0 as usize) * 256 + (b1 as usize)] = ch;
            }
            ind = ind + 1;
        }
        let c = SquareCipher {
            key: key.to_owned(),
            chrs: chrs.to_owned(),
            alpha,
            enc_len,
            enc0,
            enc1,
            dec,
        };
        proof {
            lemma_sq_tabs_lens(alg, chg, (klen * klen) as int);
            assert(c@ == spec_sq_build(key.spec_bytes(), chrs.spec_bytes()));
        }
        Ok(c)
    }
}

impl Block for SquareCipher {
    open spec fn wf(&self) -> bool {
        sq_wf(self@)
    }

    open spec fn spec_block_size(&self) -> int {
        self@.key.len() as int
    }

    open spec fn enc_ok(&self, src: Seq<u8>) -> bool {
        &&& sq_enc_ok(self@, src)
        &&& src.len() * 2 <= usize::MAX
    }

    open spec fn dec_ok(&self, src: Seq<u8>) -> bool {
        sq_dec_ok(self@, src)
    }

    open spec fn spec_enc(&self, src: Seq<u8>) -> Seq<u8> {
        spec_sq_enc(self@, src)
    }

    open spec fn spec_dec(&self, src: Seq<u8>) -> Seq<u8> {
        spec_sq_dec(self@, src)
    }

    fn block_size(&self) -> (n: usize) {
        let k: &str = self.key.as_str();
        proof {
            assert(k.spec_bytes() == vstd::utf8::encode_utf8(self.key@));
        }
        k.len()
    }

    fn encrypt(&self, dst: &mut Vec<u8>, src: &[u8]) -> (n: usize) {
        let ghost out = spec_sq_enc(self@, src@);
        let len: usize = src.len();
        let mut i: usize = 0;
        while i < len
            invariant
                self.wf(),
                sq_enc_ok(self@, src@),
                len == src@.len(),
                2 * len <= usize::MAX,
                out == spec_sq_enc(self@, src@),
                out.len() == 2 * len,
                i <= len,
                dst@.len() == old(dst)@.len() >= 2 * len,
                forall|k: int| 0 <= k < 2 * i ==> dst@[k] == out[k],
                forall|k: int| 2 * i <= k < dst@.len() ==> dst@[k] == old(dst)@[k],
            decreases len - i,
        {
            let ch: u8 = src[i];
            dst[i * 2] = self.enc0[ch as usize];
            dst[i * 2 + 1] = self.enc1[ch as usize];
            proof {
                assert(out[2 * i as int] == self@.tabs.enc0[src@[i as int] as int]);
                assert(out[2 * i as int + 1] == self@.tabs.enc1[src@[i as int] as int]);
            }
            i = i + 1;
        }
        proof {
            assert(dst@.subrange(0, 2 * len as int) =~= out);
            assert(dst@.skip(2 * len as int) =~= old(dst)@.skip(2 * len as int));
        }
        len * 2
    }

    fn decrypt(&self, dst: &mut Vec<u8>, src: &[u8]) -> (n: usize) {
        let ghost out = spec_sq_dec(self@, src@);
        let len: usize = src.len();
        let half: usize = len / 2;
        proof {
            assert(len as int == 2 * (half as int)) by (nonlinear_arith)
                requires
                    len as int % 2 == 0,
                    half as int == len as int / 2,
                    len as int >= 0,
            ;
        }
        let mut i: usize = 0;
        while i < half
            invariant
                self.wf(),
                sq_dec_ok(self@, src@),
                len == src@.len(),
                len == 2 * half,
                out == spec_sq_dec(self@, src@),
                out.len() == half,
                i <= half,
                dst@.len() == old(dst)@.len() >= half,
                forall|k: int| 0 <= k < i ==> dst@[k] == out[k],
                forall|k: int| i <= k < dst@.len() ==> dst@[k] == old(dst)@[k],
            decreases half - i,
        {
            let b0: u8 = src[2 * i];
            let b1: u8 = src[2 * i + 1];
            let pt: u8 = self.dec[(b0 as usize) * 256 + (b1 as usize)];
            if pt != 0 {
                dst[i] = pt;
            } else {
                proof {
                    assert(self@.tabs.dec[src@[2 * i as int] * 256 + src@[2 * i as int + 1]]
                        != 0);
                    assert(false);
                }
            }
            i = i + 1;
        }
        proof {
            assert(dst@.subrange(0, half as int) =~= out);
            assert(dst@.skip(half as int) =~= old(dst)@.skip(half as int));
        }
        half
    }
}

} // verus!
