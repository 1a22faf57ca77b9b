//! The Wheatstone cipher machine: two keyed wheels, a 27-place plaintext
//! wheel (the letters plus a `+` separator) and a 26-place ciphertext
//! wheel, advanced together by the distance to each plaintext letter.

use vstd::prelude::*;

use crate::helpers;

verus! {

use vstd::string::StringSliceAdditionalSpecFns;
use crate::Block;
use crate::helpers::{bytes_of, spec_shuffle};

/// The first position of a byte from index `i` on, or zero when absent.
pub open spec fn first_from(s: Seq<u8>, ch: u8, i: int) -> int
    decreases s.len() - i,
{
    if i < 0 || i >= s.len() {
        0
    } else if s[i] == ch {
        i
    } else {
        first_from(s, ch, i + 1)
    }
}

proof fn lemma_first_from(s: Seq<u8>, ch: u8, i: int)
    requires
        0 <= i <= s.len(),
    ensures
        0 <= first_from(s, ch, i) < s.len() || (first_from(s, ch, i) == 0 && s.len() >= 0),
        first_from(s, ch, i) < s.len() || s.len() == 0,
    decreases s.len() - i,
{
    if 0 <= i < s.len() && s[i] != ch {
        lemma_first_from(s, ch, i + 1);
    }
}

/// The model of a Wheatstone machine: the two wheel alphabets and the
/// start letter.
pub struct WhView {
    /// The 27-place plaintext wheel.
    pub aplw: Seq<u8>,
    /// The 26-place ciphertext wheel.
    pub actw: Seq<u8>,
    /// The starting letter on the ciphertext wheel.
    pub start: u8,
}

/// A well-formed Wheatstone model.
pub open spec fn wh_wf(v: WhView) -> bool {
    &&& v.aplw.len() == 27
    &&& v.actw.len() == 26
}

/// The wheel positions between letters.
pub struct WheelState {
    /// Position on the plaintext wheel.
    pub curpos: usize,
    /// Position on the ciphertext wheel.
    pub ctpos: usize,
}

/// One encoding step: find the letter on the plaintext wheel, advance both
/// wheels by the distance travelled, and read the ciphertext wheel.
pub open spec fn wh_encode_step(v: WhView, curpos: int, ctpos: int, ch: u8) -> (int, int, u8) {
    let a = first_from(v.aplw, ch, 0);
    let off = if a <= curpos {
        a + 27 - curpos
    } else {
        a - curpos
    };
    let ct = (ctpos + off) % 26;
    (a, ct, v.actw[ct])
}

/// One decoding step: find the letter on the ciphertext wheel, advance
/// both wheels by the distance travelled, and read the plaintext wheel.
pub open spec fn wh_decode_step(v: WhView, curpos: int, ctpos: int, ch: u8) -> (int, int, u8) {
    let a = first_from(v.actw, ch, 0);
    let off = if a <= ctpos {
        a + 26 - ctpos
    } else {
        a - ctpos
    };
    let cur = (curpos + off) % 27;
    (cur, a, v.aplw[cur])
}

/// The ciphertext produced from a state and a source.
pub open spec fn spec_wh_enc(v: WhView, curpos: int, ctpos: int, src: Seq<u8>) -> Seq<u8>
    decreases src.len(),
{
    if src.len() == 0 {
        Seq::empty()
    } else {
        let st = wh_encode_step(v, curpos, ctpos, src[0]);
        seq![st.2] + spec_wh_enc(v, st.0, st.1, src.skip(1))
    }
}

/// The plaintext produced from a state and a source.
pub open spec fn spec_wh_dec(v: WhView, curpos: int, ctpos: int, src: Seq<u8>) -> Seq<u8>
    decreases src.len(),
{
    if src.len() == 0 {
        Seq::empty()
    } else {
        let st = wh_decode_step(v, curpos, ctpos, src[0]);
        seq![st.2] + spec_wh_dec(v, st.0, st.1, src.skip(1))
    }
}

/// The start position on the ciphertext wheel.
pub open spec fn wh_start_ct(v: WhView) -> int {
    first_from(v.actw, v.start, 0)
}

proof fn lemma_wh_enc_len(v: WhView, curpos: int, ctpos: int, src: Seq<u8>)
    ensures
        spec_wh_enc(v, curpos, ctpos, src).len() == src.len(),
        spec_wh_dec(v, curpos, ctpos, src).len() == src.len(),
    decreases src.len(),
{
    if src.len() > 0 {
        let e = wh_encode_step(v, curpos, ctpos, src[0]);
        let d = wh_decode_step(v, curpos, ctpos, src[0]);
        lemma_wh_enc_len(v, e.0, e.1, src.skip(1));
        lemma_wh_enc_len(v, d.0, d.1, src.skip(1));
    }
}

/// A Wheatstone cipher machine.
pub struct Wheatstone {
    aplw: Vec<u8>,
    actw: Vec<u8>,
    start: u8,
}

impl View for Wheatstone {
    type V = WhView;

    /// The machine is modelled by its two wheels and the start letter.
    closed spec fn view(&self) -> WhView {
        WhView { aplw: self.aplw@, actw: self.actw@, start: self.start }
    }
}

/// The 26 letters A to Z.
pub open spec fn spec_az() -> Seq<u8> {
    Seq::new(26, |i: int| (65 + i) as u8)
}

proof fn lemma_az(alphabet: &str)
    requires
        alphabet@ == "ABCDEFGHIJKLMNOPQRSTUVWXYZ"@,
    ensures
        alphabet.is_ascii(),
        alphabet.spec_bytes() == spec_az(),
        alphabet@.len() == 26,
{
    reveal_strlit("ABCDEFGHIJKLMNOPQRSTUVWXYZ");
    assert(vstd::utf8::is_ascii_chars(alphabet@));
    helpers::lemma_ascii_bytes(alphabet);
    assert(alphabet.spec_bytes() =~= spec_az());
}

impl Wheatstone {
    /// Creates a new Wheatstone machine from the start letter and the two
    /// wheel keys.  Keys must be non-empty and must shuffle into full
    /// wheels.
    pub fn new(start: u8, pkey: &str, ckey: &str) -> (r: Result<Self, String>)
        requires
            pkey.is_ascii(),
            ckey.is_ascii(),
            pkey@.len() <= 100000000,
            ckey@.len() <= 100000000,
        ensures
            match r {
                Ok(c) => pkey.spec_bytes().len() > 0 && ckey.spec_bytes().len() > 0 && c.wf()
                    && c@.aplw == seq![43u8] + spec_shuffle(pkey.spec_bytes(), spec_az())
                    && c@.actw == spec_shuffle(ckey.spec_bytes(), spec_az()) && c@.start
                    == start,
                Err(_) => pkey.spec_bytes().len() == 0 || ckey.spec_bytes().len() == 0
                    || spec_shuffle(pkey.spec_bytes(), spec_az()).len() != 26 || spec_shuffle(
                    ckey.spec_bytes(),
                    spec_az(),
                ).len() != 26,
            },
    {
        proof {
            helpers::lemma_ascii_bytes(pkey);
            helpers::lemma_ascii_bytes(ckey);
        }
        if pkey.len() == 0 || ckey.len() == 0 {
            return Err("keys can not be empty".to_owned());
        }
        let alphabet = "ABCDEFGHIJKLMNOPQRSTUVWXYZ";
        proof {
            lemma_az(alphabet);
        }
        let psh = helpers::shuffle(pkey, alphabet);
        let csh = helpers::shuffle(ckey, alphabet);
        let psh_ref: &str = psh.as_str();
        let csh_ref: &str = csh.as_str();
        proof {
            helpers::lemma_ascii_bytes(psh_ref);
            helpers::lemma_ascii_bytes(csh_ref);
        }
        let mut aplw: Vec<u8> = Vec::new();
        aplw.push(43);
        let pb: Vec<u8> = psh_ref.as_bytes_vec();
        aplw.extend_from_slice(pb.as_slice());
        let actw: Vec<u8> = csh_ref.as_bytes_vec();
        proof {
            assert(aplw@ =~= seq![43u8] + spec_shuffle(pkey.spec_bytes(), spec_az()));
            assert(actw@ =~= spec_shuffle(ckey.spec_bytes(), spec_az()));
        }
        if aplw.len() != 27 || actw.len() != 26 {
            return Err("keys must shuffle into full wheels".to_owned());
        }
        Ok(Wheatstone { aplw, actw, start })
    }

    /// The wheel positions before the first letter: the plaintext wheel at
    /// its separator and the ciphertext wheel at the start letter.
    pub fn start_state(&self) -> (st: WheelState)
        requires
            self.wf(),
        ensures
            st.curpos == 0,
            st.ctpos as int == wh_start_ct(self@),
            st.ctpos < 26,
    {
        WheelState { curpos: 0, ctpos: Self::find_pos(&self.actw, self.start) }
    }

    /// The first position of a byte on a wheel, or zero when absent.
    fn find_pos(wheel: &Vec<u8>, ch: u8) -> (p: usize)
        requires
            wheel@.len() >= 1,
        ensures
            p as int == first_from(wheel@, ch, 0),
            p < wheel@.len(),
    {
        let n: usize = wheel.len();
        let mut i: usize = 0;
        while i < n
            invariant
                n == wheel@.len(),
                i <= n,
                first_from(wheel@, ch, 0) == first_from(wheel@, ch, i as int),
                forall|k: int| 0 <= k < i ==> wheel@[k] != ch,
            decreases n - i,
        {
            if wheel[i] == ch {
                return i;
            }
            i = i + 1;
        }
        0
    }

    /// Encodes one letter, advancing the wheels.
    pub fn encode(&self, st: &mut WheelState, ch: u8) -> (out: u8)
        requires
            self.wf(),
            old(st).curpos < 27,
            old(st).ctpos < 26,
        ensures
            ({
                let step = wh_encode_step(self@, old(st).curpos as int, old(st).ctpos as int, ch);
                final(st).curpos as int == step.0 && final(st).ctpos as int == step.1 && out
                    == step.2 && final(st).curpos < 27 && final(st).ctpos < 26
            }),
    {
        proof {
            lemma_first_from(self@.aplw, ch, 0);
        }
        let a: usize = Self::find_pos(&self.aplw, ch);
        let off: usize = if a <= st.curpos {
            (a + 27) - st.curpos
        } else {
            a - st.curpos
        };
        st.curpos = a;
        st.ctpos = (st.ctpos + off) % 26;
        self.actw[st.ctpos]
    }

    /// Decodes one letter, advancing the wheels.
    pub fn decode(&self, st: &mut WheelState, ch: u8) -> (out: u8)
        requires
            self.wf(),
            old(st).curpos < 27,
            old(st).ctpos < 26,
        ensures
            ({
                let step = wh_decode_step(self@, old(st).curpos as int, old(st).ctpos as int, ch);
                final(st).curpos as int == step.0 && final(st).ctpos as int == step.1 && out
                    == step.2 && final(st).curpos < 27 && final(st).ctpos < 26
            }),
    {
        proof {
            lemma_first_from(self@.actw, ch, 0);
        }
        let a: usize = Self::find_pos(&self.actw, ch);
        let off: usize = if a <= st.ctpos {
            (a + 26) - st.ctpos
        } else {
            a - st.ctpos
        };
        st.ctpos = a;
        st.curpos = (st.curpos + off) % 27;
        self.aplw[st.curpos]
    }
}

impl Block for Wheatstone {
    open spec fn wf(&self) -> bool {
        wh_wf(self@)
    }

    open spec fn spec_block_size(&self) -> int {
        1
    }

    open spec fn enc_ok(&self, src: Seq<u8>) -> bool {
        true
    }

    open spec fn dec_ok(&self, src: Seq<u8>) -> bool {
        true
    }

    open spec fn spec_enc(&self, src: Seq<u8>) -> Seq<u8> {
        spec_wh_enc(self@, 0, wh_start_ct(self@), src)
    }

    open spec fn spec_dec(&self, src: Seq<u8>) -> Seq<u8> {
        spec_wh_dec(self@, 0, wh_start_ct(self@), src)
    }

    fn block_size(&self) -> (n: usize) {
        1
    }

    fn encrypt(&self, dst: &mut Vec<u8>, src: &[u8]) -> (n: usize) {
        let ghost out = self.spec_enc(src@);
        proof {
            lemma_wh_enc_len(self@, 0, wh_start_ct(self@), src@);
        }
        let len: usize = src.len();
        let mut st = self.start_state();
        let mut i: usize = 0;
        proof {
            assert(src@.skip(0) =~= src@);
        }
        while i < len
            invariant
                self.wf(),
                len == src@.len(),
                i <= len,
                st.curpos < 27,
                st.ctpos < 26,
                out == self.spec_enc(src@),
                out.len() == len,
                dst@.len() == old(dst)@.len() >= len,
                spec_wh_enc(self@, st.curpos as int, st.ctpos as int, src@.skip(i as int))
                    == out.skip(i as int),
                forall|k: int| 0 <= k < i ==> dst@[k] == out[k],
                forall|k: int| i <= k < dst@.len() ==> dst@[k] == old(dst)@[k],
            decreases len - i,
        {
            let ghost rest = src@.skip(i as int);
            proof {
                assert(rest[0] == src@[i as int]);
                assert(rest.skip(1) =~= src@.skip(i as int + 1));
                assert(out.skip(i as int)[0] == out[i as int]);
                assert(out.skip(i as int).skip(1) =~= out.skip(i as int + 1));
            }
            let b = self.encode(&mut st, src[i]);
            dst[i] = b;
            i = i + 1;
        }
        proof {
            assert(dst@.subrange(0, len as int) =~= out);
            assert(dst@.skip(len as int) =~= old(dst)@.skip(len as int));
        }
        len
    }

    fn decrypt(&self, dst: &mut Vec<u8>, src: &[u8]) -> (n: usize) {
        let ghost out = self.spec_dec(src@);
        proof {
            lemma_wh_enc_len(self@, 0, wh_start_ct(self@), src@);
        }
        let len: usize = src.len();
        let mut st = self.start_state();
        let mut i: usize = 0;
        proof {
            assert(src@.skip(0) =~= src@);
        }
        while i < len
            invariant
                self.wf(),
                len == src@.len(),
                i <= len,
                st.curpos < 27,
                st.ctpos < 26,
                out == self.spec_dec(src@),
                out.len() == len,
                dst@.len() == old(dst)@.len() >= len,
                spec_wh_dec(self@, st.curpos as int, st.ctpos as int, src@.skip(i as int))
                    == out.skip(i as int),
                forall|k: int| 0 <= k < i ==> dst@[k] == out[k],
                forall|k: int| i <= k < dst@.len() ==> dst@[k] == old(dst)@[k],
            decreases len - i,
        {
            let ghost rest = src@.skip(i as int);
            proof {
                assert(rest[0] == src@[i as int]);
                assert(rest.skip(1) =~= src@.skip(i as int + 1));
                assert(out.skip(i as int)[0] == out[i as int]);
                assert(out.skip(i as int).skip(1) =~= out.skip(i as int + 1));
            }
            let b = self.decode(&mut st, src[i]);
            dst[i] = b;
            i = i + 1;
        }
        proof {
            assert(dst@.subrange(0, len as int) =~= out);
            assert(dst@.skip(len as int) =~= old(dst)@.skip(len as int));
        }
        len
    }
}

} // verus!
