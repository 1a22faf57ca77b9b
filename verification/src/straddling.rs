//! The straddling checkerboard: a substitution cipher that maps a keyed
//! alphabet to one- or two-digit decimal codes.  High-frequency letters get
//! a single digit; every other letter gets a two-digit code opened by one
//! of two reserved prefix digits.  Plaintext digits are escaped with the
//! `/` marker's code and doubled.

use vstd::prelude::*;

use crate::helpers;

verus! {

use vstd::string::StringSliceAdditionalSpecFns;
use crate::Block;
use crate::helpers::{bytes_of, spec_condense, spec_shuffle};

/// An ASCII decimal digit.
pub open spec fn is_digit(b: u8) -> bool {
    48 <= b <= 57
}

/// The encoding and decoding tables of a checkerboard, together with the
/// two assignment counters.
pub struct ScTabs {
    /// Code length for each byte: 0 (unmapped), 1 or 2.
    pub enc_len: Seq<u8>,
    /// First code digit for each byte.
    pub enc0: Seq<u8>,
    /// Second code digit for each byte.
    pub enc1: Seq<u8>,
    /// Plain byte for each one-digit code.
    pub dec1: Seq<u8>,
    /// Plain byte for each two-digit code (row * 10 + column).
    pub dec2: Seq<u8>,
    /// Number of one-digit codes assigned so far.
    pub si: int,
    /// Number of two-digit code slots consumed so far.
    pub lj: int,
}

/// The empty tables.
pub open spec fn sc_tabs_init() -> ScTabs {
    ScTabs {
        enc_len: Seq::new(256, |i: int| 0u8),
        enc0: Seq::new(256, |i: int| 0u8),
        enc1: Seq::new(256, |i: int| 0u8),
        dec1: Seq::new(10, |i: int| 0u8),
        dec2: Seq::new(100, |i: int| 0u8),
        si: 0,
        lj: 0,
    }
}

/// One assignment step: a letter of the shuffled alphabet takes the next
/// free one-digit code if it is a high-frequency letter, and the next
/// two-digit code otherwise.  A two-digit slot whose prefix digit is `0`
/// would be a one-digit string and is skipped, as the code books do.
pub open spec fn sc_step(t: ScTabs, ch: u8, freq: Seq<u8>, shortc: Seq<u8>, longc: Seq<u8>) -> ScTabs {
    if freq.contains(ch) {
        if t.si < shortc.len() {
            let d = shortc[t.si];
            ScTabs {
                enc_len: t.enc_len.update(ch as int, 1),
                enc0: t.enc0.update(ch as int, d),
                enc1: t.enc1,
                dec1: t.dec1.update(d - 48, ch),
                dec2: t.dec2,
                si: t.si + 1,
                lj: t.lj,
            }
        } else {
            t
        }
    } else {
        if t.lj < 20 {
            let p = longc[t.lj / 10];
            if p != 48 {
                let d1 = (48 + t.lj % 10) as u8;
                ScTabs {
                    enc_len: t.enc_len.update(ch as int, 2),
                    enc0: t.enc0.update(ch as int, p),
                    enc1: t.enc1.update(ch as int, d1),
                    dec1: t.dec1,
                    dec2: t.dec2.update((p - 48) * 10 + (d1 - 48), ch),
                    si: t.si,
                    lj: t.lj + 1,
                }
            } else {
                ScTabs { lj: t.lj + 1, ..t }
            }
        } else {
            t
        }
    }
}

/// The tables after assigning codes to the first `n` letters of the
/// shuffled alphabet.
pub open spec fn sc_tables(full: Seq<u8>, freq: Seq<u8>, shortc: Seq<u8>, longc: Seq<u8>, n: int) -> ScTabs
    decreases n,
{
    if n <= 0 {
        sc_tabs_init()
    } else {
        sc_step(sc_tables(full, freq, shortc, longc, n - 1), full[n - 1], freq, shortc, longc)
    }
}

/// The digits not reserved as two-digit prefixes, in ascending order.
pub open spec fn spec_extract(set: Seq<u8>, two: Seq<u8>) -> Seq<u8>
    decreases set.len(),
{
    if set.len() == 0 {
        Seq::empty()
    } else if two.contains(set.last()) {
        spec_extract(set.drop_last(), two)
    } else {
        spec_extract(set.drop_last(), two).push(set.last())
    }
}

/// The bytes of a sequence that belong to the alphabet, in order.
pub open spec fn spec_keep_in(s: Seq<u8>, alphabet: Seq<u8>) -> Seq<u8>
    decreases s.len(),
{
    if s.len() == 0 {
        Seq::empty()
    } else if alphabet.contains(s.last()) {
        spec_keep_in(s.drop_last(), alphabet).push(s.last())
    } else {
        spec_keep_in(s.drop_last(), alphabet)
    }
}

/// Whether a decimal digit value opens a two-digit code.
pub open spec fn spec_long_mask(longc: Seq<u8>, d: int) -> bool {
    (is_digit(longc[0]) && d == longc[0] - 48) || (is_digit(longc[1]) && d == longc[1] - 48)
}

/// The full model of a checkerboard: its key, prefix digits, shuffled
/// alphabet and code tables.
pub struct ScView {
    /// The keyword's bytes.
    pub key: Seq<u8>,
    /// The two prefix digits.
    pub longc: Seq<u8>,
    /// The shuffled alphabet.
    pub full: Seq<u8>,
    /// Which digit values open a two-digit code.
    pub mask: Seq<bool>,
    /// The code tables.
    pub tabs: ScTabs,
}

/// A well-formed checkerboard model: two digit prefixes, tables of the
/// fixed sizes, and a prefix mask that matches the prefix digits.
pub open spec fn sc_wf(v: ScView) -> bool {
    &&& v.longc.len() == 2
    &&& is_digit(v.longc[0]) && is_digit(v.longc[1])
    &&& v.tabs.enc_len.len() == 256
    &&& v.tabs.enc0.len() == 256
    &&& v.tabs.enc1.len() == 256
    &&& v.tabs.dec1.len() == 10
    &&& v.tabs.dec2.len() == 100
    &&& v.mask.len() == 10
    &&& forall|d: int| 0 <= d < 10 ==> v.mask[d] == spec_long_mask(v.longc, d)
    &&& 1 <= v.key.len() <= 100000000
}

/// The tables with the assignment counters cleared; only the tables are
/// part of a cipher's model.
pub open spec fn sc_strip(t: ScTabs) -> ScTabs {
    ScTabs {
        enc_len: t.enc_len,
        enc0: t.enc0,
        enc1: t.enc1,
        dec1: t.dec1,
        dec2: t.dec2,
        si: 0,
        lj: 0,
    }
}

/// The model built by the constructor from its four inputs.
pub open spec fn spec_sc_build(keyb: Seq<u8>, chrsb: Seq<u8>, freqb: Seq<u8>, alphab: Seq<u8>) -> ScView {
    let longc = seq![chrsb[0], chrsb[1]];
    let full = spec_keep_in(spec_shuffle(keyb, alphab), alphab);
    let shortc = spec_extract(Seq::new(10, |i: int| (48 + i) as u8), longc);
    ScView {
        key: keyb,
        longc: longc,
        full: full,
        mask: Seq::new(10, |d: int| spec_long_mask(longc, d)),
        tabs: sc_strip(sc_tables(full, freqb, shortc, longc, full.len() as int)),
    }
}

/// The code emitted for one plain byte: nothing, one digit, or two digits.
pub open spec fn code_of(v: ScView, ch: u8) -> Seq<u8> {
    if v.tabs.enc_len[ch as int] == 1 {
        seq![v.tabs.enc0[ch as int]]
    } else if v.tabs.enc_len[ch as int] == 2 {
        seq![v.tabs.enc0[ch as int], v.tabs.enc1[ch as int]]
    } else {
        Seq::empty()
    }
}

/// The digit stream produced for a source: mapped bytes emit their code, a
/// plaintext digit is escaped as marker-code digit digit marker-code, and
/// unmapped bytes are dropped.
pub open spec fn spec_sc_enc(v: ScView, src: Seq<u8>) -> Seq<u8>
    decreases src.len(),
{
    if src.len() == 0 {
        Seq::empty()
    } else {
        (if is_digit(src[0]) {
            if v.tabs.enc_len[47] != 0 {
                code_of(v, 47) + seq![src[0], src[0]] + code_of(v, 47)
            } else {
                Seq::empty()
            }
        } else {
            code_of(v, src[0])
        }) + spec_sc_enc(v, src.skip(1))
    }
}

/// Whether the four digits after a decoded marker form the digit-escape
/// pattern: a doubled digit followed by the marker's own code (or the very
/// code just consumed).
pub open spec fn esc_hit(v: ScView, src: Seq<u8>, db: int) -> bool {
    &&& src.len() >= db + 4
    &&& src[db] == src[db + 1]
    &&& is_digit(src[db + 2])
    &&& is_digit(src[db + 3])
    &&& {
        ||| (db == 2 && src[db + 2] == src[0] && src[db + 3] == src[1])
        ||| v.tabs.dec2[(src[db + 2] - 48) * 10 + (src[db + 3] - 48)] == 47
    }
}

/// The plain bytes recovered from a digit stream, scanning left to right:
/// a prefix digit opens a two-digit code, any other digit is a one-digit
/// code, the digit-escape pattern restores a literal digit, and malformed
/// or unmapped fragments are dropped.
pub open spec fn spec_sc_dec(v: ScView, src: Seq<u8>) -> Seq<u8>
    decreases src.len(),
{
    if src.len() == 0 {
        Seq::empty()
    } else {
        let ch = src[0];
        if !is_digit(ch) {
            spec_sc_dec(v, src.skip(1))
        } else {
            let d0 = (ch - 48) as int;
            if spec_long_mask(v.longc, d0) {
                if src.len() >= 2 {
                    if is_digit(src[1]) {
                        let ptc = v.tabs.dec2[d0 * 10 + (src[1] - 48)];
                        sc_dec_emit(v, src, ptc, 2)
                    } else {
                        spec_sc_dec(v, src.skip(2))
                    }
                } else {
                    Seq::empty()
                }
            } else {
                let ptc = v.tabs.dec1[d0];
                sc_dec_emit(v, src, ptc, 1)
            }
        }
    }
}

/// Emits one decoded byte (or a restored literal digit) and continues.
pub open spec fn sc_dec_emit(v: ScView, src: Seq<u8>, ptc: u8, db: int) -> Seq<u8>
    decreases src.len(), 0int,
    when 1 <= db <= src.len()
{
    if ptc == 47 && esc_hit(v, src, db) {
        seq![src[db]] + spec_sc_dec(v, src.skip(db + 4))
    } else {
        (if ptc != 0 {
            seq![ptc]
        } else {
            Seq::empty()
        }) + spec_sc_dec(v, src.skip(db))
    }
}

} // verus!
verus! {

/// Keeps only the bytes of `s` that occur in `alphabet`.
fn keep_in(s: &Vec<u8>, alphabet: &[u8]) -> (r: Vec<u8>)
    ensures
        r@ == spec_keep_in(s@, alphabet@),
{
    let mut r: Vec<u8> = Vec::new();
    let n: usize = s.len();
    let mut i: usize = 0;
    while i < n
        invariant
            n == s@.len(),
            i <= n,
            r@ == spec_keep_in(s@.take(i as int), alphabet@),
        decreases n - i,
    {
        let ghost pre = s@.take(i as int);
        let ghost cur = s@.take(i as int + 1);
        proof {
            assert(cur.drop_last() =~= pre);
            assert(cur.last() == s@[i as int]);
        }
        let b: u8 = s[i];
        let mut found: bool = false;
        let m: usize = alphabet.len();
        let mut j: usize = 0;
        while j < m
            invariant
                m == alphabet@.len(),
                j <= m,
                found <==> exists|k: int| 0 <= k < j && alphabet@[k] == b,
            decreases m - j,
        {
            if alphabet[j] == b {
                found = true;
            }
            j = j + 1;
        }
        if found {
            r.push(b);
        } else {
            proof {
                if alphabet@.contains(b) {
                    let k = choose|k: int| 0 <= k < alphabet@.len() && alphabet@[k] == b;
                    assert(false);
                }
            }
        }
        i = i + 1;
    }
    proof {
        assert(s@.take(n as int) =~= s@);
    }
    r
}

/// A straddling checkerboard cipher.
pub struct StraddlingCheckerboard {
    key: String,
    longc: Vec<u8>,
    full: Vec<u8>,
    enc_len: Vec<u8>,
    enc0: Vec<u8>,
    enc1: Vec<u8>,
    dec1: Vec<u8>,
    dec2: Vec<u8>,
    longc_mask: Vec<bool>,
}

impl View for StraddlingCheckerboard {
    type V = ScView;

    /// The cipher is modelled by its key, prefix digits, shuffled alphabet
    /// and code tables.
    closed spec fn view(&self) -> ScView {
        ScView {
            key: vstd::utf8::encode_utf8(self.key@),
            longc: self.longc@,
            full: self.full@,
            mask: self.longc_mask@,
            tabs: ScTabs {
                enc_len: self.enc_len@,
                enc0: self.enc0@,
                enc1: self.enc1@,
                dec1: self.dec1@,
                dec2: self.dec2@,
                si: 0,
                lj: 0,
            },
        }
    }
}

impl StraddlingCheckerboard {
    /// Extracts the digits of `set` that are not among the two reserved
    /// prefix digits.
    pub fn extract(set: &[u8], two: &[u8]) -> (r: Vec<u8>)
        ensures
            r@ == spec_extract(set@, two@),
    {
        let mut r: Vec<u8> = Vec::new();
        let n: usize = set.len();
        let mut i: usize = 0;
        while i < n
            invariant
                n == set@.len(),
                i <= n,
                r@ == spec_extract(set@.take(i as int), two@),
            decreases n - i,
        {
            let ghost pre = set@.take(i as int);
            let ghost cur = set@.take(i as int + 1);
            proof {
                assert(cur.drop_last() =~= pre);
                assert(cur.last() == set@[i as int]);
            }
            let b: u8 = set[i];
            let mut found: bool = false;
            let m: usize = two.len();
            let mut j: usize = 0;
            while j < m
                invariant
                    m == two@.len(),
                    j <= m,
                    found <==> exists|k: int| 0 <= k < j && two@[k] == b,
                decreases m - j,
            {
                if two[j] == b {
                    found = true;
                }
                j = j + 1;
            }
            if !found {
                proof {
                    if two@.contains(b) {
                        let k = choose|k: int| 0 <= k < two@.len() && two@[k] == b;
                        assert(false);
                    }
                }
                r.push(b);
            }
            i = i + 1;
        }
        proof {
            assert(set@.take(n as int) =~= set@);
        }
        r
    }
}

} // verus!
verus! {

impl StraddlingCheckerboard {

    /// Builds the encoding and decoding tables from the shuffled alphabet.
    fn build_tables(
        full: &Vec<u8>,
        freq: &[u8],
        shortc: &Vec<u8>,
        longc: &Vec<u8>,
    ) -> (t: (Vec<u8>, Vec<u8>, Vec<u8>, Vec<u8>, Vec<u8>))
        requires
            shortc@.len() <= 10,
            forall|k: int| 0 <= k < shortc@.len() ==> is_digit(#[trigger] shortc@[k]),
            longc@.len() == 2,
            is_digit(longc@[0]) && is_digit(longc@[1]),
        ensures
            ({
                let tabs = sc_tables(full@, freq@, shortc@, longc@, full@.len() as int);
                t.0@ == tabs.enc_len && t.1@ == tabs.enc0 && t.2@ == tabs.enc1 && t.3@
                    == tabs.dec1 && t.4@ == tabs.dec2
            }),
    {
        let ghost fullg = full@;
        let ghost freqg = freq@;
        let ghost shortg = shortc@;
        let ghost longg = longc@;
        let mut enc_len: Vec<u8> = vec![0u8; 256];
        let mut enc0: Vec<u8> = vec![0u8; 256];
        let mut enc1: Vec<u8> = vec![0u8; 256];
        let mut dec1: Vec<u8> = vec![0u8; 10];
        let mut dec2: Vec<u8> = vec![0u8; 100];
        let mut si: usize = 0;
        let mut lj: usize = 0;
        proof {
            assert(enc_len@ =~= sc_tabs_init().enc_len);
            assert(enc0@ =~= sc_tabs_init().enc0);
            assert(enc1@ =~= sc_tabs_init().enc1);
            assert(dec1@ =~= sc_tabs_init().dec1);
            assert(dec2@ =~= sc_tabs_init().dec2);
        }
        let n: usize = full.len();
        let mut t: usize = 0;
        while t < n
            invariant
                fullg == full@,
                freqg == freq@,
                shortg == shortc@,
                longg == longc@,
                n == fullg.len(),
                t <= n,
                shortg.len() <= 10,
                forall|k: int| 0 <= k < shortg.len() ==> is_digit(#[trigger] shortg[k]),
                longg.len() == 2,
                is_digit(longg[0]) && is_digit(longg[1]),
                ({
                    let tabs = sc_tables(fullg, freqg, shortg, longg, t as int);
                    enc_len@ == tabs.enc_len && enc0@ == tabs.enc0 && enc1@ == tabs.enc1
                        && dec1@ == tabs.dec1 && dec2@ == tabs.dec2 && si == tabs.si && lj
                        == tabs.lj
                }),
            decreases n - t,
        {
            let ghost pre = sc_tables(fullg, freqg, shortg, longg, t as int);
            let ghost post = sc_tables(fullg, freqg, shortg, longg, t as int + 1);
            let ch: u8 = full[t];
            proof {
                lemma_tabs_lens(fullg, freqg, shortg, longg, t as int);
                assert(post == sc_step(pre, ch, freqg, shortg, longg));
            }
            let mut found: bool = false;
            let m: usize = freq.len();
            let mut k: usize = 0;
            while k < m
                invariant
                    m == freq@.len(),
                    k <= m,
                    found <==> exists|q: int| 0 <= q < k && freq@[q] == ch,
                decreases m - k,
            {
                if freq[k] == ch {
                    found = true;
                }
                k = k + 1;
            }
            proof {
                if freqg.contains(ch) {
                    let q = choose|q: int| 0 <= q < freqg.len() && freqg[q] == ch;
                    assert(found);
                }
                if found {
                    assert(freqg.contains(ch));
                }
            }
            if found {
                if si < shortc.len() {
                    let d: u8 = shortc[si];
                    enc_len[ch as usize] = 1;
                    enc0[ch as usize] = d;
                    dec1[(d - 48) as usize] = ch;
                    si = si + 1;
                }
            } else {
                if lj < 20 {
                    let p: u8 = longc[lj / 10];
                    if p != 48 {
                        let d1: u8 = 48 + (lj % 10) as u8;
                        enc_len[ch as usize] = 2;
                        enc0[ch as usize] = p;
                        enc1[ch as usize] = d1;
                        dec2[((p - 48) as usize) * 10 + ((d1 - 48) as usize)] = ch;
                    }
                    lj = lj + 1;
                }
            }
            t = t + 1;
        }
        proof {
            assert(t == n);
        }
        (enc_len, enc0, enc1, dec1, dec2)
    }

    /// Creates a new straddling checkerboard with a custom high-frequency
    /// letter set and alphabet.  The key must not be empty and the prefix
    /// string must hold at least two digits.
    pub fn new_with_freq(key: &str, chrs: &str, freq_str: &str, alphabet: &str) -> (r: Result<
        Self,
        String,
    >)
        requires
            key.is_ascii(),
            chrs.is_ascii(),
            freq_str.is_ascii(),
            alphabet.is_ascii(),
            key@.len() <= 100000000,
            alphabet@.len() <= 100000000,
            chrs@.len() <= 100000000,
            freq_str@.len() <= 100000000,
            chrs.spec_bytes().len() >= 2 ==> is_digit(chrs.spec_bytes()[0]) && is_digit(
                chrs.spec_bytes()[1],
            ),
        ensures
            match r {
                Ok(c) => key.spec_bytes().len() > 0 && chrs.spec_bytes().len() >= 2 && c.wf()
                    && c@ == spec_sc_build(
                    key.spec_bytes(),
                    chrs.spec_bytes(),
                    freq_str.spec_bytes(),
                    alphabet.spec_bytes(),
                ),
                Err(_) => key.spec_bytes().len() == 0 || chrs.spec_bytes().len() < 2,
            },
    {
        proof {
            helpers::lemma_ascii_bytes(key);
            helpers::lemma_ascii_bytes(chrs);
            helpers::lemma_ascii_bytes(freq_str);
            helpers::lemma_ascii_bytes(alphabet);
        }
        if key.len() == 0 {
            return Err("key can not be empty".to_owned());
        }
        if chrs.len() < 2 {
            return Err("longc must have at least 2 characters".to_owned());
        }
        let chrs_b: &[u8] = chrs.as_bytes();
        let mut longc: Vec<u8> = Vec::new();
        longc.push(chrs_b[0]);
        longc.push(chrs_b[1]);
        proof {
            assert(longc@ =~= seq![chrs.spec_bytes()[0], chrs.spec_bytes()[1]]);
        }
        let full_str = helpers::shuffle(key, alphabet);
        let full_ref: &str = full_str.as_str();
        proof {
            helpers::lemma_ascii_bytes(full_ref);
        }
        let full_shuffled: Vec<u8> = full_ref.as_bytes_vec();
        proof {
            assert(full_shuffled@ == bytes_of(full_str@));
        }
        let full: Vec<u8> = keep_in(&full_shuffled, alphabet.as_bytes());
        let mut all_digits: Vec<u8> = Vec::new();
        let mut d: u8 = 48;
        while d <= 57
            invariant
                48 <= d <= 58,
                all_digits@.len() == d - 48,
                forall|k: int| 0 <= k < all_digits@.len() ==> all_digits@[k] == 48 + k,
            decreases 58 - d,
        {
            all_digits.push(d);
            d = d + 1;
        }
        proof {
            assert(all_digits@ =~= Seq::new(10, |i: int| (48 + i) as u8));
        }
        let shortc: Vec<u8> = Self::extract(all_digits.as_slice(), longc.as_slice());
        proof {
            lemma_extract_digits(all_digits@, longc@);
        }
        let tables = Self::build_tables(&full, freq_str.as_bytes(), &shortc, &longc);
        let mut longc_mask: Vec<bool> = vec![false; 10];
        let ghost longg = longc@;
        let mut a: usize = 0;
        while a < 2
            invariant
                longc@ == longg,
                longg.len() == 2,
                is_digit(longg[0]) && is_digit(longg[1]),
                longc_mask@.len() == 10,
                a <= 2,
                forall|t: int|
                    0 <= t < 10 ==> longc_mask@[t] == ((a >= 1 && is_digit(longg[0]) && t
                        == longg[0] - 48) || (a >= 2 && is_digit(longg[1]) && t == longg[1]
                        - 48)),
            decreases 2 - a,
        {
            let cd: u8 = longc[a];
            if cd >= 48 && cd <= 57 {
                longc_mask[(cd - 48) as usize] = true;
            }
            a = a + 1;
        }
        let c = StraddlingCheckerboard {
            key: key.to_owned(),
            longc,
            full,
            enc_len: tables.0,
            enc0: tables.1,
            enc1: tables.2,
            dec1: tables.3,
            dec2: tables.4,
            longc_mask,
        };
        proof {
            let v = spec_sc_build(
                key.spec_bytes(),
                chrs.spec_bytes(),
                freq_str.spec_bytes(),
                alphabet.spec_bytes(),
            );
            assert(bytes_of(full_str@) == spec_shuffle(key.spec_bytes(), alphabet.spec_bytes()));
            assert(c@.full == v.full);
            assert(c@.longc =~= v.longc);
            assert(c@.key == key.spec_bytes());
            lemma_tabs_lens(c@.full, freq_str.spec_bytes(), shortc@, c@.longc, c@.full.len() as int);
            assert(c@.tabs == v.tabs);
            assert(c@.mask =~= v.mask);
            assert(sc_wf(c@));
        }
        Ok(c)
    }

    /// Creates a new straddling checkerboard with the default
    /// high-frequency letters and the default alphabet.
    pub fn new(key: &str, chrs: &str) -> (r: Result<Self, String>)
        requires
            key.is_ascii(),
            chrs.is_ascii(),
            key@.len() <= 100000000,
            chrs@.len() <= 100000000,
            chrs.spec_bytes().len() >= 2 ==> is_digit(chrs.spec_bytes()[0]) && is_digit(
                chrs.spec_bytes()[1],
            ),
        ensures
            match r {
                Ok(c) => key.spec_bytes().len() > 0 && chrs.spec_bytes().len() >= 2 && c.wf()
                    && c@ == spec_sc_build(
                    key.spec_bytes(),
                    chrs.spec_bytes(),
                    spec_default_freq(),
                    spec_default_alphabet(),
                ),
                Err(_) => key.spec_bytes().len() == 0 || chrs.spec_bytes().len() < 2,
            },
    {
        let freq = "ESANTIRU";
        let alphabet = "ABCDEFGHIJKLMNOPQRSTUVWXYZ/-";
        proof {
            lemma_default_strings(freq, alphabet);
        }
        StraddlingCheckerboard::new_with_freq(key, chrs, freq, alphabet)
    }
}

/// The default high-frequency letters, `ESANTIRU`.
pub open spec fn spec_default_freq() -> Seq<u8> {
    seq![69u8, 83u8, 65u8, 78u8, 84u8, 73u8, 82u8, 85u8]
}

/// The default alphabet: the 26 letters followed by `/` and `-`.
pub open spec fn spec_default_alphabet() -> Seq<u8> {
    Seq::new(26, |i: int| (65 + i) as u8).push(47u8).push(45u8)
}

proof fn lemma_default_strings(freq: &str, alphabet: &str)
    requires
        freq@ == "ESANTIRU"@,
        alphabet@ == "ABCDEFGHIJKLMNOPQRSTUVWXYZ/-"@,
    ensures
        freq.is_ascii(),
        alphabet.is_ascii(),
        freq.spec_bytes() == spec_default_freq(),
        alphabet.spec_bytes() == spec_default_alphabet(),
        alphabet@.len() == 28,
{
    reveal_strlit("ESANTIRU");
    reveal_strlit("ABCDEFGHIJKLMNOPQRSTUVWXYZ/-");
    assert(vstd::utf8::is_ascii_chars(freq@));
    assert(vstd::utf8::is_ascii_chars(alphabet@));
    helpers::lemma_ascii_bytes(freq);
    helpers::lemma_ascii_bytes(alphabet);
    assert(freq.spec_bytes() =~= spec_default_freq());
    assert(alphabet.spec_bytes() =~= spec_default_alphabet());
}

/// The extracted short digits are digits and at most ten.
proof fn lemma_extract_digits(set: Seq<u8>, two: Seq<u8>)
    requires
        forall|k: int| 0 <= k < set.len() ==> is_digit(#[trigger] set[k]),
    ensures
        spec_extract(set, two).len() <= set.len(),
        forall|k: int|
            0 <= k < spec_extract(set, two).len() ==> is_digit(#[trigger] spec_extract(set, two)[k]),
    decreases set.len(),
{
    if set.len() > 0 {
        assert(forall|k: int|
            0 <= k < set.drop_last().len() ==> is_digit(#[trigger] set.drop_last()[k]));
        lemma_extract_digits(set.drop_last(), two);
        let e = spec_extract(set, two);
        let ep = spec_extract(set.drop_last(), two);
        if !two.contains(set.last()) {
            assert forall|k: int| 0 <= k < e.len() implies is_digit(#[trigger] e[k]) by {
                if k < e.len() - 1 {
                    assert(e[k] == ep[k]);
                } else {
                    assert(e[k] == set.last());
                    assert(is_digit(set[set.len() - 1]));
                }
            }
        }
    }
}

/// The built tables keep the fixed table lengths.
proof fn lemma_tabs_lens(full: Seq<u8>, freq: Seq<u8>, shortc: Seq<u8>, longc: Seq<u8>, n: int)
    requires
        longc.len() == 2,
        is_digit(longc[0]) && is_digit(longc[1]),
        shortc.len() <= 10,
        forall|k: int| 0 <= k < shortc.len() ==> is_digit(#[trigger] shortc[k]),
    ensures
        ({
            let t = sc_tables(full, freq, shortc, longc, n);
            t.enc_len.len() == 256 && t.enc0.len() == 256 && t.enc1.len() == 256 && t.dec1.len()
                == 10 && t.dec2.len() == 100 && t.si >= 0 && t.lj >= 0
        }),
    decreases n,
{
    if n > 0 {
        lemma_tabs_lens(full, freq, shortc, longc, n - 1);
    }
}

} // verus!
verus! {

impl StraddlingCheckerboard {
    /// The code digits assigned to a plain byte, if any.
    pub fn code_of_byte(&self, ch: u8) -> (r: Vec<u8>)
        requires
            self.wf(),
        ensures
            r@ == code_of(self@, ch),
    {
        let mut r: Vec<u8> = Vec::new();
        let l: u8 = self.enc_len[ch as usize];
        if l == 1 {
            r.push(self.enc0[ch as usize]);
            proof {
                assert(r@ =~= code_of(self@, ch));
            }
        } else if l == 2 {
            r.push(self.enc0[ch as usize]);
            r.push(self.enc1[ch as usize]);
            proof {
                assert(r@ =~= code_of(self@, ch));
            }
        } else {
            proof {
                assert(r@ =~= code_of(self@, ch));
            }
        }
        r
    }

    /// The plain byte behind a one-digit code.
    pub fn decode_short(&self, d: usize) -> (r: u8)
        requires
            self.wf(),
            d < 10,
        ensures
            r == self@.tabs.dec1[d as int],
    {
        self.dec1[d]
    }

    /// The plain byte behind a two-digit code.
    pub fn decode_long(&self, d0: usize, d1: usize) -> (r: u8)
        requires
            self.wf(),
            d0 < 10,
            d1 < 10,
        ensures
            r == self@.tabs.dec2[d0 * 10 + d1],
    {
        self.dec2[d0 * 10 + d1]
    }

    /// The shuffled alphabet the codes were assigned over.
    pub fn full_alphabet(&self) -> (r: Vec<u8>)
        ensures
            r@ == self@.full,
    {
        let mut r: Vec<u8> = Vec::new();
        r.extend_from_slice(self.full.as_slice());
        proof {
            assert(r@ =~= self@.full);
        }
        r
    }

    /// The two prefix digits.
    pub fn long_digits(&self) -> (r: Vec<u8>)
        ensures
            r@ == self@.longc,
    {
        let mut r: Vec<u8> = Vec::new();
        r.extend_from_slice(self.longc.as_slice());
        proof {
            assert(r@ =~= self@.longc);
        }
        r
    }

    /// Encodes the source into a fresh digit buffer.
    fn encode_vec(&self, src: &[u8]) -> (buf: Vec<u8>)
        requires
            self.wf(),
        ensures
            buf@ == spec_sc_enc(self@, src@),
    {
        let ghost v = self@;
        let ghost out = spec_sc_enc(v, src@);
        let len: usize = src.len();
        let mut buf: Vec<u8> = Vec::new();
        let mut i: usize = 0;
        proof {
            assert(src@.skip(0) =~= src@);
            assert(buf@ + out =~= out);
        }
        while i < len
            invariant
                v == self@,
                self.wf(),
                len == src@.len(),
                i <= len,
                out == spec_sc_enc(v, src@),
                buf@ + spec_sc_enc(v, src@.skip(i as int)) == out,
            decreases len - i,
        {
            let ghost rest = src@.skip(i as int);
            proof {
                assert(rest[0] == src@[i as int]);
                assert(rest.skip(1) =~= src@.skip(i as int + 1));
            }
            let ch: u8 = src[i];
            if 48 <= ch && ch <= 57 {
                let ml: u8 = self.enc_len[47];
                if ml != 0 {
                    let m0: u8 = self.enc0[47];
                    if ml == 1 {
                        buf.push(m0);
                    } else if ml == 2 {
                        buf.push(m0);
                        buf.push(self.enc1[47]);
                    }
                    buf.push(ch);
                    buf.push(ch);
                    if ml == 1 {
                        buf.push(m0);
                    } else if ml == 2 {
                        buf.push(m0);
                        buf.push(self.enc1[47]);
                    }
                    proof {
                        assert(buf@ + spec_sc_enc(v, src@.skip(i as int + 1)) =~= out);
                    }
                } else {
                    proof {
                        assert(buf@ + spec_sc_enc(v, src@.skip(i as int + 1)) =~= out);
                    }
                }
            } else {
                let l: u8 = self.enc_len[ch as usize];
                if l == 1 {
                    buf.push(self.enc0[ch as usize]);
                } else if l == 2 {
                    buf.push(self.enc0[ch as usize]);
                    buf.push(self.enc1[ch as usize]);
                }
                proof {
                    assert(buf@ + spec_sc_enc(v, src@.skip(i as int + 1)) =~= out);
                }
            }
            i = i + 1;
        }
        proof {
            assert(src@.skip(len as int) =~= Seq::<u8>::empty());
            assert(buf@ =~= out);
        }
        buf
    }

    /// Decodes the digit stream into a fresh plain buffer.
    #[verifier::rlimit(100)]
    fn decode_vec(&self, src: &[u8]) -> (buf: Vec<u8>)
        requires
            self.wf(),
            src@.len() <= usize::MAX - 8,
        ensures
            buf@ == spec_sc_dec(self@, src@),
    {
        let ghost v = self@;
        let ghost out = spec_sc_dec(v, src@);
        let len: usize = src.len();
        let mut buf: Vec<u8> = Vec::new();
        let mut i: usize = 0;
        proof {
            assert(src@.skip(0) =~= src@);
            assert(buf@ + out =~= out);
        }
        while i < len
            invariant
                v == self@,
                self.wf(),
                len == src@.len(),
                i <= len,
                out == spec_sc_dec(v, src@),
                buf@ + spec_sc_dec(v, src@.skip(i as int)) == out,
            decreases len - i,
        {
            let ghost rest = src@.skip(i as int);
            proof {
                assert(rest[0] == src@[i as int]);
                assert(rest.skip(1) =~= src@.skip(i as int + 1));
            }
            let ch: u8 = src[i];
            if !(48 <= ch && ch <= 57) {
                i = i + 1;
                proof {
                    assert(buf@ + spec_sc_dec(v, src@.skip(i as int)) =~= out);
                }
                continue ;
            }
            let d0: usize = (ch - 48) as usize;
            let ptc: u8;
            let db: usize;
            if self.longc_mask[d0] {
                if i + 1 < len {
                    let ch1: u8 = src[i + 1];
                    if 48 <= ch1 && ch1 <= 57 {
                        ptc = self.dec2[d0 * 10 + (ch1 - 48) as usize];
                        db = 2;
                    } else {
                        proof {
                            assert(rest.skip(2) =~= src@.skip(i as int + 2));
                        }
                        i = i + 2;
                        proof {
                            assert(buf@ + spec_sc_dec(v, src@.skip(i as int)) =~= out);
                        }
                        continue ;
                    }
                } else {
                    i = i + 1;
                    proof {
                        assert(spec_sc_dec(v, rest) =~= Seq::<u8>::empty());
                        assert(spec_sc_dec(v, src@.skip(i as int)) =~= Seq::<u8>::empty());
                        assert(buf@ + spec_sc_dec(v, src@.skip(i as int)) =~= out);
                    }
                    continue ;
                }
            } else {
                ptc = self.dec1[d0];
                db = 1;
            }
            let ghost emit = sc_dec_emit(v, rest, ptc, db as int);
            proof {
                assert(spec_sc_dec(v, rest) == emit);
            }
            let mut escaped: bool = false;
            if ptc == 47 && len >= 4 && i + db <= len - 4 {
                if src[i + db] == src[i + db + 1] {
                    let row0: u8 = src[i + db + 2];
                    let row1: u8 = src[i + db + 3];
                    if 48 <= row0 && row0 <= 57 && 48 <= row1 && row1 <= 57 {
                        let mut is_match: bool = false;
                        if db == 2 {
                            is_match = row0 == src[i] && row1 == src[i + 1];
                        }
                        if is_match || self.dec2[((row0 - 48) as usize) * 10 + ((row1
                            - 48) as usize)] == 47 {
                            escaped = true;
                            proof {
                                assert(rest[db as int] == src@[i + db]);
                                assert(rest[db as int + 1] == src@[i + db + 1]);
                                assert(rest[db as int + 2] == src@[i + db + 2]);
                                assert(rest[db as int + 3] == src@[i + db + 3]);
                                assert(esc_hit(v, rest, db as int));
                                assert(rest.skip(db as int + 4) =~= src@.skip(
                                    i as int + db + 4,
                                ));
                            }
                            buf.push(src[i + db]);
                            i = i + db + 4;
                            proof {
                                assert(buf@ + spec_sc_dec(v, src@.skip(i as int)) =~= out);
                            }
                        }
                    }
                }
            }
            if !escaped {
                proof {
                    assert(!(ptc == 47 && esc_hit(v, rest, db as int))) by {
                        if ptc == 47 && esc_hit(v, rest, db as int) {
                            assert(rest[db as int] == src@[i + db]);
                            assert(rest[db as int + 1] == src@[i + db + 1]);
                            assert(rest[db as int + 2] == src@[i + db + 2]);
                            assert(rest[db as int + 3] == src@[i + db + 3]);
                        }
                    }
                    assert(rest.skip(db as int) =~= src@.skip(i as int + db));
                }
                if ptc != 0 {
                    buf.push(ptc);
                }
                i = i + db;
                proof {
                    assert(buf@ + spec_sc_dec(v, src@.skip(i as int)) =~= out);
                }
            }
        }
        proof {
            assert(src@.skip(len as int) =~= Seq::<u8>::empty());
            assert(buf@ =~= out);
        }
        buf
    }
}

impl Block for StraddlingCheckerboard {
    open spec fn wf(&self) -> bool {
        sc_wf(self@)
    }

    open spec fn spec_block_size(&self) -> int {
        self@.key.len() as int
    }

    open spec fn enc_ok(&self, src: Seq<u8>) -> bool {
        true
    }

    open spec fn dec_ok(&self, src: Seq<u8>) -> bool {
        src.len() <= usize::MAX - 8
    }

    open spec fn spec_enc(&self, src: Seq<u8>) -> Seq<u8> {
        spec_sc_enc(self@, src)
    }

    open spec fn spec_dec(&self, src: Seq<u8>) -> Seq<u8> {
        spec_sc_dec(self@, src)
    }

    fn block_size(&self) -> (n: usize) {
        let k: &str = self.key.as_str();
        proof {
            assert(k.spec_bytes() == vstd::utf8::encode_utf8(self.key@));
        }
        k.len()
    }

    fn encrypt(&self, dst: &mut Vec<u8>, src: &[u8]) -> (n: usize) {
        let buf = self.encode_vec(src);
        copy_into(dst, buf.as_slice())
    }

    fn decrypt(&self, dst: &mut Vec<u8>, src: &[u8]) -> (n: usize) {
        let buf = self.decode_vec(src);
        copy_into(dst, buf.as_slice())
    }
}

/// Copies a finished buffer into the caller's destination prefix.
pub(crate) fn copy_into(dst: &mut Vec<u8>, buf: &[u8]) -> (n: usize)
    requires
        old(dst)@.len() >= buf@.len(),
    ensures
        n == buf@.len(),
        final(dst)@.len() == old(dst)@.len(),
        final(dst)@.subrange(0, n as int) == buf@,
        final(dst)@.skip(n as int) == old(dst)@.skip(n as int),
{
    let n: usize = buf.len();
    let mut q: usize = 0;
    while q < n
        invariant
            n == buf@.len(),
            dst@.len() == old(dst)@.len() >= n,
            q <= n,
            forall|t: int| 0 <= t < q ==> dst@[t] == buf@[t],
            forall|t: int| q <= t < dst@.len() ==> dst@[t] == old(dst)@[t],
        decreases n - q,
    {
        dst[q] = buf[q];
        q = q + 1;
    }
    proof {
        assert(dst@.subrange(0, n as int) =~= buf@);
        assert(dst@.skip(n as int) =~= old(dst)@.skip(n as int));
    }
    n
}

} // verus!
// The checkerboard round trip: with consistent tables and a supported
// plaintext alphabet, decoding an encoded buffer restores it.
verus! {

/// Consistent code tables: the two prefix digits are distinct, codes are
/// decimal digits, one-digit codes avoid the prefix digits, two-digit
/// codes open with one, each code decodes back to its letter, and the
/// digit-escape marker `/` carries a two-digit code.
pub open spec fn sc_codes_ok(v: ScView) -> bool {
    &&& v.longc[0] != v.longc[1]
    &&& v.tabs.enc_len[47] == 2
    &&& forall|ch: int|
        0 <= ch < 256 && #[trigger] v.tabs.enc_len[ch] == 1 ==> is_digit(v.tabs.enc0[ch])
            && !spec_long_mask(v.longc, v.tabs.enc0[ch] - 48) && v.tabs.dec1[v.tabs.enc0[ch]
            - 48] == ch
    &&& forall|ch: int|
        0 <= ch < 256 && #[trigger] v.tabs.enc_len[ch] == 2 ==> is_digit(v.tabs.enc0[ch])
            && is_digit(v.tabs.enc1[ch]) && spec_long_mask(v.longc, v.tabs.enc0[ch] - 48)
            && v.tabs.dec2[(v.tabs.enc0[ch] - 48) * 10 + (v.tabs.enc1[ch] - 48)] == ch
}

/// A supported plaintext: every byte is a decimal digit or a letter with a
/// code of its own, other than the escape marker itself.
pub open spec fn sc_plain_ok(v: ScView, src: Seq<u8>) -> bool {
    forall|i: int|
        0 <= i < src.len() ==> (is_digit(#[trigger] src[i]) || ((v.tabs.enc_len[src[i] as int]
            == 1 || v.tabs.enc_len[src[i] as int] == 2) && src[i] != 47 && src[i] != 0))
}

/// Decoding an encoded buffer restores it, byte for byte.
pub proof fn lemma_sc_round_trip(v: ScView, src: Seq<u8>)
    requires
        sc_wf(v),
        sc_codes_ok(v),
        sc_plain_ok(v, src),
    ensures
        spec_sc_dec(v, spec_sc_enc(v, src)) == src,
    decreases src.len(),
{
    if src.len() == 0 {
        assert(spec_sc_enc(v, src) =~= Seq::<u8>::empty());
        assert(spec_sc_dec(v, spec_sc_enc(v, src)) =~= src);
    } else {
        let c = src[0];
        let rest = src.skip(1);
        assert(sc_plain_ok(v, rest)) by {
            assert forall|i: int| 0 <= i < rest.len() implies (is_digit(#[trigger] rest[i]) || ((
            v.tabs.enc_len[rest[i] as int] == 1 || v.tabs.enc_len[rest[i] as int] == 2)
                && rest[i] != 47 && rest[i] != 0)) by {
                assert(rest[i] == src[i + 1]);
            }
        }
        lemma_sc_round_trip(v, rest);
        let yr = spec_sc_enc(v, rest);
        let y = spec_sc_enc(v, src);
        assert(src[0] == c);
        if is_digit(c) {
            let m0 = v.tabs.enc0[47];
            let m1 = v.tabs.enc1[47];
            assert(v.tabs.enc_len[47] == 2);
            assert(is_digit(m0) && is_digit(m1));
            assert(spec_long_mask(v.longc, m0 - 48));
            assert(v.tabs.dec2[(m0 - 48) * 10 + (m1 - 48)] == 47);
            assert(y =~= seq![m0, m1, c, c, m0, m1] + yr);
            assert(y[0] == m0 && y[1] == m1 && y[2] == c && y[3] == c && y[4] == m0 && y[5]
                == m1);
            assert(y.len() >= 6);
            let ptc = v.tabs.dec2[((y[0] - 48) as int) * 10 + (y[1] - 48)];
            assert(ptc == 47);
            assert(esc_hit(v, y, 2));
            assert(sc_dec_emit(v, y, ptc, 2) == seq![y[2]] + spec_sc_dec(v, y.skip(6)));
            assert(y.skip(6) =~= yr);
            assert(spec_sc_dec(v, y) =~= seq![c] + rest);
            assert(spec_sc_dec(v, y) =~= src);
        } else if v.tabs.enc_len[c as int] == 1 {
            let e0 = v.tabs.enc0[c as int];
            assert(is_digit(e0) && !spec_long_mask(v.longc, e0 - 48));
            assert(v.tabs.dec1[e0 - 48] == c);
            assert(y =~= seq![e0] + yr);
            assert(y[0] == e0);
            let ptc = v.tabs.dec1[(e0 - 48) as int];
            assert(ptc == c && c != 47 && c != 0);
            assert(sc_dec_emit(v, y, ptc, 1) == seq![ptc] + spec_sc_dec(v, y.skip(1)));
            assert(y.skip(1) =~= yr);
            assert(spec_sc_dec(v, y) =~= seq![c] + rest);
            assert(spec_sc_dec(v, y) =~= src);
        } else {
            let e0 = v.tabs.enc0[c as int];
            let e1 = v.tabs.enc1[c as int];
            assert(v.tabs.enc_len[c as int] == 2);
            assert(is_digit(e0) && is_digit(e1) && spec_long_mask(v.longc, e0 - 48));
            assert(v.tabs.dec2[(e0 - 48) * 10 + (e1 - 48)] == c);
            assert(y =~= seq![e0, e1] + yr);
            assert(y[0] == e0 && y[1] == e1);
            assert(y.len() >= 2);
            let ptc = v.tabs.dec2[((y[0] - 48) as int) * 10 + (y[1] - 48)];
            assert(ptc == c && c != 47 && c != 0);
            assert(sc_dec_emit(v, y, ptc, 2) == seq![ptc] + spec_sc_dec(v, y.skip(2)));
            assert(y.skip(2) =~= yr);
            assert(spec_sc_dec(v, y) =~= seq![c] + rest);
            assert(spec_sc_dec(v, y) =~= src);
        }
    }
}

} // verus!
// The constructor's code assignment is consistent by itself: distinct
// prefix digits give distinct two-digit slots, the short digits avoid the
// prefixes, and a later assignment never clobbers an earlier letter's
// decode entry.
verus! {

/// The short digits extracted from the full digit row are digits, are
/// pairwise distinct, and avoid the excluded pair.
proof fn lemma_extract_props(set: Seq<u8>, two: Seq<u8>)
    requires
        forall|k: int| 0 <= k < set.len() ==> is_digit(#[trigger] set[k]),
        forall|p: int, q: int| 0 <= p < q < set.len() ==> set[p] != set[q],
    ensures
        forall|k: int|
            0 <= k < spec_extract(set, two).len() ==> is_digit(
                #[trigger] spec_extract(set, two)[k],
            ) && !two.contains(spec_extract(set, two)[k]),
        forall|p: int, q: int|
            0 <= p < q < spec_extract(set, two).len() ==> spec_extract(set, two)[p]
                != spec_extract(set, two)[q],
        forall|k: int| 0 <= k < spec_extract(set, two).len() ==> set.contains(
            #[trigger] spec_extract(set, two)[k],
        ),
    decreases set.len(),
{
    if set.len() > 0 {
        let sp = set.drop_last();
        assert(forall|k: int| 0 <= k < sp.len() ==> is_digit(#[trigger] sp[k]));
        assert(forall|p: int, q: int| 0 <= p < q < sp.len() ==> sp[p] != sp[q]);
        lemma_extract_props(sp, two);
        let e = spec_extract(set, two);
        let ep = spec_extract(sp, two);
        assert forall|k: int| 0 <= k < e.len() implies is_digit(#[trigger] e[k]) && !two.contains(
            e[k],
        ) && set.contains(e[k]) by {
            if !two.contains(set.last()) && k == e.len() - 1 {
                assert(e[k] == set.last());
                assert(set[set.len() - 1] == set.last());
                assert(is_digit(set[set.len() - 1]));
            } else {
                assert(e[k] == ep[k]);
                assert(sp.contains(ep[k]));
                let w = choose|w: int| 0 <= w < sp.len() && sp[w] == ep[k];
                assert(set[w] == ep[k]);
            }
        }
        assert forall|p: int, q: int| 0 <= p < q < e.len() implies e[p] != e[q] by {
            if !two.contains(set.last()) && q == e.len() - 1 {
                assert(e[q] == set.last());
                assert(sp.contains(ep[p]));
                let w = choose|w: int| 0 <= w < sp.len() && sp[w] == ep[p];
                assert(set[w] != set[set.len() - 1]);
            }
        }
    }
}

/// The code pair of two-digit slot `k`: its prefix digit and column digit.
pub open spec fn long_slot(longc: Seq<u8>, k: int) -> (u8, u8) {
    (longc[k / 10], (48 + k % 10) as u8)
}

/// The invariant of the assignment fold: every assigned code is a digit
/// code of the right shape, decodes back to its letter, and sits in an
/// already consumed slot.
pub open spec fn sc_tabs_consistent(t: ScTabs, shortc: Seq<u8>, longc: Seq<u8>) -> bool {
    &&& 0 <= t.si <= shortc.len()
    &&& 0 <= t.lj <= 20
    &&& forall|ch: int|
        0 <= ch < 256 && #[trigger] t.enc_len[ch] == 1 ==> is_digit(t.enc0[ch])
            && !spec_long_mask(longc, t.enc0[ch] - 48) && t.dec1[t.enc0[ch] - 48] == ch && (
        exists|k: int| 0 <= k < t.si && t.enc0[ch] == shortc[k])
    &&& forall|ch: int|
        0 <= ch < 256 && #[trigger] t.enc_len[ch] == 2 ==> is_digit(t.enc0[ch]) && is_digit(
            t.enc1[ch],
        ) && spec_long_mask(longc, t.enc0[ch] - 48) && t.dec2[(t.enc0[ch] - 48) * 10 + (
        t.enc1[ch] - 48)] == ch && (exists|k: int|
            0 <= k < t.lj && (t.enc0[ch], t.enc1[ch]) == #[trigger] long_slot(longc, k))
}

#[verifier::rlimit(100)]
#[verifier::spinoff_prover]
proof fn lemma_sc_tables_consistent(
    full: Seq<u8>,
    freq: Seq<u8>,
    shortc: Seq<u8>,
    longc: Seq<u8>,
    n: int,
)
    requires
        longc.len() == 2,
        is_digit(longc[0]),
        is_digit(longc[1]),
        longc[0] != longc[1],
        shortc.len() <= 10,
        forall|k: int|
            0 <= k < shortc.len() ==> is_digit(#[trigger] shortc[k]) && !spec_long_mask(
                longc,
                shortc[k] - 48,
            ),
        forall|p: int, q: int| 0 <= p < q < shortc.len() ==> shortc[p] != shortc[q],
        0 <= n,
    ensures
        sc_tabs_consistent(sc_tables(full, freq, shortc, longc, n), shortc, longc),
    decreases n,
{
    lemma_tabs_lens(full, freq, shortc, longc, n);
    if n > 0 {
        lemma_sc_tables_consistent(full, freq, shortc, longc, n - 1);
        lemma_tabs_lens(full, freq, shortc, longc, n - 1);
        let t0 = sc_tables(full, freq, shortc, longc, n - 1);
        let t = sc_tables(full, freq, shortc, longc, n);
        let ch = full[n - 1];
        if freq.contains(ch) {
            if t0.si < shortc.len() {
                let d = shortc[t0.si];
                assert forall|c2: int| 0 <= c2 < 256 && #[trigger] t.enc_len[c2] == 1 implies
                    is_digit(t.enc0[c2]) && !spec_long_mask(longc, t.enc0[c2] - 48)
                    && t.dec1[t.enc0[c2] - 48] == c2 && (exists|k: int|
                    0 <= k < t.si && t.enc0[c2] == shortc[k]) by {
                    if c2 == ch {
                        assert(t.enc0[c2] == d);
                        assert(0 <= t0.si < t.si && t.enc0[c2] == shortc[t0.si]);
                    } else {
                        assert(t0.enc_len[c2] == 1);
                        let k2 = choose|k: int| 0 <= k < t0.si && t0.enc0[c2] == shortc[k];
                        assert(shortc[k2] != shortc[t0.si]);
                        assert(t.dec1[t.enc0[c2] - 48] == t0.dec1[t0.enc0[c2] - 48]);
                        assert(0 <= k2 < t.si && t.enc0[c2] == shortc[k2]);
                    }
                }
                assert forall|c2: int| 0 <= c2 < 256 && #[trigger] t.enc_len[c2] == 2 implies
                    is_digit(t.enc0[c2]) && is_digit(t.enc1[c2]) && spec_long_mask(
                    longc,
                    t.enc0[c2] - 48,
                ) && t.dec2[(t.enc0[c2] - 48) * 10 + (t.enc1[c2] - 48)] == c2 && (exists|k: int|
                    0 <= k < t.lj && (t.enc0[c2], t.enc1[c2]) == #[trigger] long_slot(
                        longc,
                        k,
                    )) by {
                    assert(c2 != ch);
                    assert(t0.enc_len[c2] == 2);
                    let k2 = choose|k: int|
                        0 <= k < t0.lj && (t0.enc0[c2], t0.enc1[c2]) == #[trigger] long_slot(
                            longc,
                            k,
                        );
                    assert(0 <= k2 < t.lj && (t.enc0[c2], t.enc1[c2]) == long_slot(longc, k2));
                }
            }
        } else {
            if t0.lj < 20 {
                let p = longc[t0.lj / 10];
                if p != 48 {
                    let d1 = (48 + t0.lj % 10) as u8;
                    assert(0 <= t0.lj / 10 < 2);
                    assert(is_digit(p));
                    assert(0 <= t0.lj % 10 < 10);
                    assert forall|c2: int| 0 <= c2 < 256 && #[trigger] t.enc_len[c2]
                        == 2 implies is_digit(t.enc0[c2]) && is_digit(t.enc1[c2])
                        && spec_long_mask(longc, t.enc0[c2] - 48) && t.dec2[(t.enc0[c2] - 48)
                        * 10 + (t.enc1[c2] - 48)] == c2 && (exists|k: int|
                        0 <= k < t.lj && (t.enc0[c2], t.enc1[c2]) == #[trigger] long_slot(
                            longc,
                            k,
                        )) by {
                        if c2 == ch {
                            assert(t.enc0[c2] == p && t.enc1[c2] == d1);
                            assert(spec_long_mask(longc, p - 48));
                            assert(0 <= t0.lj < t.lj && (t.enc0[c2], t.enc1[c2]) == long_slot(
                                longc,
                                t0.lj,
                            ));
                        } else {
                            assert(t0.enc_len[c2] == 2);
                            let k2 = choose|k: int|
                                0 <= k < t0.lj && (t0.enc0[c2], t0.enc1[c2])
                                    == #[trigger] long_slot(longc, k);
                            assert((longc[k2 / 10] - 48) * 10 + (k2 % 10) != (p - 48) * 10 + (
                            t0.lj % 10)) by {
                                if k2 / 10 == t0.lj / 10 {
                                    assert(k2 % 10 != t0.lj % 10) by {
                                        vstd::arithmetic::div_mod::lemma_fundamental_div_mod(
                                            k2,
                                            10,
                                        );
                                        vstd::arithmetic::div_mod::lemma_fundamental_div_mod(
                                            t0.lj,
                                            10,
                                        );
                                    }
                                } else {
                                    assert(longc[k2 / 10] != longc[t0.lj / 10]);
                                    assert(0 <= k2 / 10 < 2) by {
                                        vstd::arithmetic::div_mod::lemma_div_pos_is_pos(k2, 10);
                                    }
                                }
                            }
                            assert(t.dec2[(t.enc0[c2] - 48) * 10 + (t.enc1[c2] - 48)] == c2);
                            assert(0 <= k2 < t.lj && (t.enc0[c2], t.enc1[c2]) == long_slot(
                                longc,
                                k2,
                            ));
                        }
                    }
                    assert forall|c2: int| 0 <= c2 < 256 && #[trigger] t.enc_len[c2]
                        == 1 implies is_digit(t.enc0[c2]) && !spec_long_mask(
                        longc,
                        t.enc0[c2] - 48,
                    ) && t.dec1[t.enc0[c2] - 48] == c2 && (exists|k: int|
                        0 <= k < t.si && t.enc0[c2] == shortc[k]) by {
                        assert(c2 != ch);
                        assert(t0.enc_len[c2] == 1);
                        let k2 = choose|k: int| 0 <= k < t0.si && t0.enc0[c2] == shortc[k];
                        assert(0 <= k2 < t.si && t.enc0[c2] == shortc[k2]);
                    }
                }
            }
        }
    }
}

/// The tables of a constructed checkerboard are consistent whenever the
/// two prefix digits differ: together with a code for the escape marker
/// this gives `sc_codes_ok`.
pub proof fn lemma_sc_build_consistent(
    keyb: Seq<u8>,
    chrsb: Seq<u8>,
    freqb: Seq<u8>,
    alphab: Seq<u8>,
)
    requires
        chrsb.len() >= 2,
        is_digit(chrsb[0]),
        is_digit(chrsb[1]),
        chrsb[0] != chrsb[1],
    ensures
        ({
            let v = spec_sc_build(keyb, chrsb, freqb, alphab);
            v.tabs.enc_len[47] == 2 ==> sc_codes_ok(v)
        }),
{
    let v = spec_sc_build(keyb, chrsb, freqb, alphab);
    let longc = seq![chrsb[0], chrsb[1]];
    let digits = Seq::new(10, |i: int| (48 + i) as u8);
    let shortc = spec_extract(digits, longc);
    assert(forall|k: int| 0 <= k < digits.len() ==> is_digit(#[trigger] digits[k]));
    lemma_extract_props(digits, longc);
    lemma_extract_digits(digits, longc);
    assert forall|k: int| 0 <= k < shortc.len() implies is_digit(#[trigger] shortc[k])
        && !spec_long_mask(longc, shortc[k] - 48) by {
        assert(!longc.contains(shortc[k]));
        assert(longc[0] != shortc[k] && longc[1] != shortc[k]);
    }
    let full = v.full;
    lemma_sc_tables_consistent(full, freqb, shortc, longc, full.len() as int);
    let t = sc_tables(full, freqb, shortc, longc, full.len() as int);
    assert(v.tabs.enc_len == t.enc_len && v.tabs.enc0 == t.enc0 && v.tabs.enc1 == t.enc1
        && v.tabs.dec1 == t.dec1 && v.tabs.dec2 == t.dec2);
}

} // verus!
