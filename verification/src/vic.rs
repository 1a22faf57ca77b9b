//! The VIC cipher: a straddling checkerboard followed by a regular and an
//! irregular columnar transposition, driven by a numeric key schedule that
//! expands a passphrase, an indicator and a message index into the three
//! stage keys.

use vstd::prelude::*;

use crate::helpers;
use crate::straddling::StraddlingCheckerboard;
use crate::transposition::{IrregularTransposition, Transposition};

verus! {

use vstd::string::StringSliceAdditionalSpecFns;
use crate::Block;
use crate::helpers::{spec_rank, rank_at};
use crate::straddling::{
    is_digit,
    spec_sc_build,
    spec_sc_enc,
    spec_sc_dec,
    spec_default_alphabet,
    ScView,
};
use crate::transposition::{spec_trans_enc, spec_trans_dec, spec_irr_enc, spec_irr_dec};

/// Every byte is a decimal digit value (0 to 9).
pub open spec fn all_small(s: Seq<u8>) -> bool {
    forall|i: int| 0 <= i < s.len() ==> #[trigger] s[i] <= 9
}

/// Every byte is an ASCII digit.
pub open spec fn all_digits(s: Seq<u8>) -> bool {
    forall|i: int| 0 <= i < s.len() ==> is_digit(#[trigger] s[i])
}

/// The digit values of an ASCII digit string.
pub open spec fn spec_digits(s: Seq<u8>) -> Seq<u8> {
    Seq::new(s.len(), |i: int| (s[i] - 48) as u8)
}

/// Elementwise difference modulo 10, over the shorter length.
pub open spec fn spec_submod10(a: Seq<u8>, b: Seq<u8>) -> Seq<u8> {
    let n = if a.len() <= b.len() {
        a.len()
    } else {
        b.len()
    };
    Seq::new(n, |i: int| ((a[i] + 10 - b[i]) % 10) as u8)
}

/// Elementwise sum modulo 10 into the first operand.
pub open spec fn spec_addmod10(a: Seq<u8>, b: Seq<u8>) -> Seq<u8> {
    Seq::new(
        a.len(),
        |i: int|
            if i < b.len() {
                ((a[i] + b[i]) % 10) as u8
            } else {
                a[i]
            },
    )
}

/// Chain addition: each digit is replaced by the mod-10 sum of itself and
/// its right neighbour, the last one wrapping around to the original first
/// digit.
pub open spec fn spec_chainadd(a: Seq<u8>) -> Seq<u8> {
    if a.len() < 2 {
        a
    } else {
        Seq::new(
            a.len(),
            |i: int|
                if i < a.len() - 1 {
                    ((a[i] + a[i + 1]) % 10) as u8
                } else {
                    ((a[i] + a[0]) % 10) as u8
                },
        )
    }
}

/// Chain addition applied `k` times in sequence.
pub open spec fn spec_chainadd_n(a: Seq<u8>, k: int) -> Seq<u8>
    decreases k,
{
    if k <= 0 {
        a
    } else {
        spec_chainadd(spec_chainadd_n(a, k - 1))
    }
}

/// Extension by chain addition: `n` new digits, each the mod-10 sum of two
/// adjacent digits of the growing sequence.
pub open spec fn spec_chainadd_extend(a: Seq<u8>, n: int) -> Seq<u8>
    decreases n,
{
    if n <= 0 {
        a
    } else {
        let r = spec_chainadd_extend(a, n - 1);
        r.push(((r[n - 1] + r[n]) % 10) as u8)
    }
}

/// The substitution lookup of the key schedule: each digit of `a` picks the
/// entry of `b` one place before it, wrapping at zero.
pub open spec fn spec_first_encode(a: Seq<u8>, b: Seq<u8>) -> Seq<u8> {
    Seq::new(a.len(), |i: int| b[(a[i] + 9) % 10])
}

/// A passphrase half turned into a digit key: the stable ranks, each
/// shifted up by one modulo 10.
pub open spec fn spec_phkey(s: Seq<u8>) -> Seq<u8> {
    Seq::new(s.len(), |i: int| ((rank_at(s, i) + 1) % 10) as u8)
}

/// Digit values rendered as ASCII digits.
pub open spec fn spec_to_ascii(s: Seq<u8>) -> Seq<u8> {
    Seq::new(s.len(), |i: int| (s[i] + 48) as u8)
}

/// The three derived keys of the schedule: the regular transposition key,
/// the irregular transposition key, and the checkerboard key digits.
pub open spec fn spec_expand_key(phraseb: Seq<u8>, imsg: Seq<u8>, ikey5: Seq<u8>) -> (
    Seq<u8>,
    Seq<u8>,
    Seq<u8>,
) {
    let ph1 = spec_phkey(phraseb.subrange(0, 10));
    let ph2 = spec_phkey(phraseb.subrange(10, 20));
    let first = spec_addmod10(spec_chainadd_extend(spec_submod10(imsg, ikey5), 5), ph1);
    let second = spec_first_encode(first, ph2);
    let third = spec_chainadd_n(second, 5);
    let sckey = spec_rank(spec_to_ascii(third));
    (second, third, sckey)
}

/// The default high-frequency letters of the VIC checkerboard, `ATONESIR`.
pub open spec fn spec_vic_freq() -> Seq<u8> {
    seq![65u8, 84u8, 79u8, 78u8, 69u8, 83u8, 73u8, 82u8]
}

/// The accepted key material: an indicator of at least five digits, a
/// message index of at least two digits, a personal number of at least two
/// digits, and a passphrase of at least twenty characters.
pub open spec fn vic_input_ok(persnb: Seq<u8>, indb: Seq<u8>, phraseb: Seq<u8>, imsgb: Seq<u8>) -> bool {
    &&& persnb.len() >= 2
    &&& is_digit(persnb[0]) && is_digit(persnb[1])
    &&& indb.len() >= 5
    &&& all_digits(indb.subrange(0, 5))
    &&& imsgb.len() >= 2
    &&& all_digits(imsgb)
    &&& phraseb.len() >= 20
}

/// The model of a constructed VIC cipher: the two transposition rank
/// sequences and the checkerboard model.
pub open spec fn spec_vic_build(persnb: Seq<u8>, indb: Seq<u8>, phraseb: Seq<u8>, imsgb: Seq<u8>) -> (
    Seq<u8>,
    Seq<u8>,
    ScView,
) {
    let keys = spec_expand_key(phraseb, spec_digits(imsgb), spec_digits(indb.subrange(0, 5)));
    (
        spec_rank(keys.0),
        spec_rank(keys.1),
        spec_sc_build(spec_to_ascii(keys.2), persnb, spec_vic_freq(), spec_default_alphabet()),
    )
}

/// Chain addition preserves the length.
proof fn lemma_chainadd_n_len(a: Seq<u8>, k: int)
    ensures
        spec_chainadd_n(a, k).len() == a.len(),
    decreases k,
{
    if k > 0 {
        lemma_chainadd_n_len(a, k - 1);
    }
}

/// Converts a digit string to its digit values.
pub fn str2int(s: &str) -> (r: Vec<u8>)
    requires
        all_digits(s.spec_bytes()),
    ensures
        r@ == spec_digits(s.spec_bytes()),
        all_small(r@),
{
    digits_of(s.as_bytes())
}

/// Converts digit bytes to their digit values.
pub fn digits_of(s: &[u8]) -> (r: Vec<u8>)
    requires
        all_digits(s@),
    ensures
        r@ == spec_digits(s@),
        all_small(r@),
{
    let n: usize = s.len();
    let mut r: Vec<u8> = Vec::new();
    let mut i: usize = 0;
    while i < n
        invariant
            n == s@.len(),
            all_digits(s@),
            i <= n,
            r@.len() == i,
            forall|k: int| 0 <= k < i ==> r@[k] == s@[k] - 48 && #[trigger] r@[k] <= 9,
        decreases n - i,
    {
        r.push(s[i] - 48);
        i = i + 1;
    }
    proof {
        assert(r@ =~= spec_digits(s@));
    }
    r
}

/// Adds two digit vectors elementwise modulo 10 in place; the operation
/// stops when either vector is exhausted.
pub fn addmod10_inplace(a: &mut Vec<u8>, b: &[u8])
    requires
        all_small(old(a)@),
        all_small(b@),
    ensures
        final(a)@ == spec_addmod10(old(a)@, b@),
        all_small(final(a)@),
{
    let n: usize = if a.len() <= b.len() {
        a.len()
    } else {
        b.len()
    };
    let mut i: usize = 0;
    while i < n
        invariant
            n <= a@.len(),
            n <= b@.len(),
            a@.len() == old(a)@.len(),
            all_small(b@),
            i <= n,
            forall|k: int| i <= k < a@.len() ==> a@[k] == old(a)@[k],
            forall|k: int| 0 <= k < i ==> a@[k] == ((old(a)@[k] + b@[k]) % 10) as u8,
            all_small(a@),
        decreases n - i,
    {
        let x: u8 = a[i];
        a[i] = (x + b[i]) % 10;
        i = i + 1;
    }
    proof {
        assert(a@ =~= spec_addmod10(old(a)@, b@));
    }
}

/// The elementwise difference modulo 10 of two digit vectors.
pub fn submod10(a: &[u8], b: &[u8]) -> (r: Vec<u8>)
    requires
        all_small(a@),
        all_small(b@),
    ensures
        r@ == spec_submod10(a@, b@),
        all_small(r@),
{
    let n: usize = if a.len() <= b.len() {
        a.len()
    } else {
        b.len()
    };
    let mut r: Vec<u8> = Vec::new();
    let mut i: usize = 0;
    while i < n
        invariant
            n <= a@.len(),
            n <= b@.len(),
            all_small(a@),
            all_small(b@),
            i <= n,
            r@.len() == i,
            forall|k: int| 0 <= k < i ==> r@[k] == ((a@[k] + 10 - b@[k]) % 10) as u8,
            all_small(r@),
        decreases n - i,
    {
        r.push((a[i] + 10 - b[i]) % 10);
        i = i + 1;
    }
    proof {
        assert(r@ =~= spec_submod10(a@, b@));
    }
    r
}

/// One round of chain addition in place.
pub fn chainadd_inplace(a: &mut Vec<u8>)
    requires
        all_small(old(a)@),
    ensures
        final(a)@ == spec_chainadd(old(a)@),
        all_small(final(a)@),
{
    let l: usize = a.len();
    if l < 2 {
        proof {
            assert(a@ =~= spec_chainadd(old(a)@));
        }
        return ;
    }
    let first: u8 = a[0];
    let mut i: usize = 0;
    while i < l - 1
        invariant
            l == a@.len() == old(a)@.len(),
            l >= 2,
            all_small(old(a)@),
            first == old(a)@[0],
            i <= l - 1,
            forall|k: int| i <= k < l ==> a@[k] == old(a)@[k],
            forall|k: int| 0 <= k < i ==> a@[k] == ((old(a)@[k] + old(a)@[k + 1]) % 10) as u8,
            all_small(a@),
        decreases l - i,
    {
        let x: u8 = a[i];
        let y: u8 = a[i + 1];
        a[i] = (x + y) % 10;
        i = i + 1;
    }
    let z: u8 = a[l - 1];
    a[l - 1] = (z + first) % 10;
    proof {
        assert(a@ =~= spec_chainadd(old(a)@));
    }
}

/// Extends a digit vector by `n` digits of chain addition.
pub fn chainadd_extend(a: &[u8], n: usize) -> (r: Vec<u8>)
    requires
        all_small(a@),
        a@.len() >= 2,
        a@.len() + n <= 100000,
    ensures
        r@ == spec_chainadd_extend(a@, n as int),
        all_small(r@),
        r@.len() == a@.len() + n,
{
    let mut r: Vec<u8> = Vec::new();
    r.extend_from_slice(a);
    proof {
        assert(r@ =~= a@);
        lemma_chainadd_extend_len(a@, 0);
    }
    let mut i: usize = 0;
    while i < n
        invariant
            all_small(a@),
            a@.len() >= 2,
            a@.len() + n <= 100000,
            i <= n,
            r@ == spec_chainadd_extend(a@, i as int),
            r@.len() == a@.len() + i,
            all_small(r@),
        decreases n - i,
    {
        let sum: u8 = (r[i] + r[i + 1]) % 10;
        r.push(sum);
        proof {
            lemma_chainadd_extend_len(a@, i as int + 1);
        }
        i = i + 1;
    }
    r
}

proof fn lemma_chainadd_extend_len(a: Seq<u8>, n: int)
    requires
        n >= 0,
    ensures
        spec_chainadd_extend(a, n).len() == a.len() + n,
    decreases n,
{
    if n > 0 {
        lemma_chainadd_extend_len(a, n - 1);
    }
}

/// Encodes a digit vector through a lookup table: each digit picks the
/// entry one place before it, wrapping at zero.
pub fn first_encode(a: &[u8], b: &[u8]) -> (r: Vec<u8>)
    requires
        all_small(a@),
        b@.len() >= 10,
        all_small(b@),
    ensures
        r@ == spec_first_encode(a@, b@),
        all_small(r@),
{
    let n: usize = a.len();
    let mut r: Vec<u8> = Vec::new();
    let mut i: usize = 0;
    while i < n
        invariant
            n == a@.len(),
            all_small(a@),
            b@.len() >= 10,
            all_small(b@),
            i <= n,
            r@.len() == i,
            forall|k: int| 0 <= k < i ==> r@[k] == b@[(a@[k] + 9) % 10],
            all_small(r@),
        decreases n - i,
    {
        let v: u8 = a[i];
        r.push(b[((v + 9) % 10) as usize]);
        i = i + 1;
    }
    proof {
        assert(r@ =~= spec_first_encode(a@, b@));
    }
    r
}

/// A passphrase half turned into a digit key.
pub fn phkey(half: &[u8]) -> (r: Vec<u8>)
    requires
        half@.len() <= 256,
    ensures
        r@ == spec_phkey(half@),
        all_small(r@),
        r@.len() == half@.len(),
{
    let ranks = helpers::rank_bytes(half);
    let n: usize = ranks.len();
    let mut r: Vec<u8> = Vec::new();
    let mut i: usize = 0;
    while i < n
        invariant
            n == ranks@.len() == half@.len() <= 256,
            ranks@ == spec_rank(half@),
            i <= n,
            r@.len() == i,
            forall|k: int| 0 <= k < i ==> r@[k] == ((rank_at(half@, k) + 1) % 10) as u8,
            all_small(r@),
        decreases n - i,
    {
        proof {
            helpers::lemma_rank_bound(half@, i as int);
        }
        let v: u8 = ranks[i];
        r.push((((v as usize) + 1) % 10) as u8);
        i = i + 1;
    }
    proof {
        assert(r@ =~= spec_phkey(half@));
    }
    r
}

/// Digit values rendered as ASCII digits.
fn to_ascii_digits(a: &[u8]) -> (r: Vec<u8>)
    requires
        all_small(a@),
    ensures
        r@ == spec_to_ascii(a@),
        all_digits(r@),
        r@.len() == a@.len(),
{
    let n: usize = a.len();
    let mut r: Vec<u8> = Vec::new();
    let mut i: usize = 0;
    while i < n
        invariant
            n == a@.len(),
            all_small(a@),
            i <= n,
            r@.len() == i,
            forall|k: int| 0 <= k < i ==> r@[k] == (a@[k] + 48) as u8 && is_digit(#[trigger] r@[k]),
        decreases n - i,
    {
        r.push(a[i] + 48);
        i = i + 1;
    }
    proof {
        assert(r@ =~= spec_to_ascii(a@));
    }
    r
}

/// Checks that every byte of a slice is an ASCII digit.
fn check_digits(s: &[u8]) -> (r: bool)
    ensures
        r == all_digits(s@),
{
    let n: usize = s.len();
    let mut i: usize = 0;
    while i < n
        invariant
            n == s@.len(),
            i <= n,
            forall|k: int| 0 <= k < i ==> is_digit(#[trigger] s@[k]),
        decreases n - i,
    {
        let b: u8 = s[i];
        if b < 48 || b > 57 {
            return false;
        }
        i = i + 1;
    }
    true
}

} // verus!
verus! {

/// The VIC cipher pipeline: checkerboard, then regular transposition, then
/// irregular transposition, with all three keys derived from the key
/// material.
pub struct VicCipher {
    firsttp: Transposition,
    secondtp: IrregularTransposition,
    sc: StraddlingCheckerboard,
}

impl View for VicCipher {
    type V = (Seq<u8>, Seq<u8>, ScView);

    /// The cipher is modelled by its two transposition rank sequences and
    /// its checkerboard model.
    closed spec fn view(&self) -> (Seq<u8>, Seq<u8>, ScView) {
        (self.firsttp@, self.secondtp@, self.sc@)
    }
}

proof fn lemma_vic_freq(freq: &str)
    requires
        freq@ == "ATONESIR"@,
    ensures
        freq.is_ascii(),
        freq.spec_bytes() == spec_vic_freq(),
        freq@.len() == 8,
{
    reveal_strlit("ATONESIR");
    assert(vstd::utf8::is_ascii_chars(freq@));
    helpers::lemma_ascii_bytes(freq);
    assert(freq.spec_bytes() =~= spec_vic_freq());
}

proof fn lemma_vic_alphabet(alphabet: &str)
    requires
        alphabet@ == "ABCDEFGHIJKLMNOPQRSTUVWXYZ/-"@,
    ensures
        alphabet.is_ascii(),
        alphabet.spec_bytes() == spec_default_alphabet(),
        alphabet@.len() == 28,
{
    reveal_strlit("ABCDEFGHIJKLMNOPQRSTUVWXYZ/-");
    assert(vstd::utf8::is_ascii_chars(alphabet@));
    helpers::lemma_ascii_bytes(alphabet);
    assert(alphabet.spec_bytes() =~= spec_default_alphabet());
}

impl VicCipher {
    /// Creates a new VIC cipher from the personal number, the indicator,
    /// the passphrase and the message index, deriving the three stage keys.
    /// Malformed key material is rejected with an error.
    pub fn new(persn: &str, ind: &str, phrase: &str, imsg: &str) -> (r: Result<Self, String>)
        requires
            persn.is_ascii(),
            ind.is_ascii(),
            phrase.is_ascii(),
            imsg.is_ascii(),
            persn@.len() <= 100000000,
            imsg@.len() <= 100000000,
        ensures
            match r {
                Ok(c) => vic_input_ok(
                    persn.spec_bytes(),
                    ind.spec_bytes(),
                    phrase.spec_bytes(),
                    imsg.spec_bytes(),
                ) && c.wf() && c@ == spec_vic_build(
                    persn.spec_bytes(),
                    ind.spec_bytes(),
                    phrase.spec_bytes(),
                    imsg.spec_bytes(),
                ),
                Err(_) => !vic_input_ok(
                    persn.spec_bytes(),
                    ind.spec_bytes(),
                    phrase.spec_bytes(),
                    imsg.spec_bytes(),
                ),
            },
    {
        proof {
            helpers::lemma_ascii_bytes(persn);
            helpers::lemma_ascii_bytes(ind);
            helpers::lemma_ascii_bytes(phrase);
            helpers::lemma_ascii_bytes(imsg);
        }
        let persn_b: &[u8] = persn.as_bytes();
        let ind_b: &[u8] = ind.as_bytes();
        let phrase_b: &[u8] = phrase.as_bytes();
        let imsg_b: &[u8] = imsg.as_bytes();
        if persn_b.len() < 2 {
            return Err("personal number must have at least 2 digits".to_owned());
        }
        let p0: u8 = persn_b[0];
        let p1: u8 = persn_b[1];
        if p0 < 48 || p0 > 57 || p1 < 48 || p1 > 57 {
            return Err("personal number must be digits".to_owned());
        }
        if ind_b.len() < 5 {
            return Err("indicator must have at least 5 digits".to_owned());
        }
        let ind5: &[u8] = vstd::slice::slice_subrange(ind_b, 0, 5);
        if !check_digits(ind5) {
            return Err("indicator must be digits".to_owned());
        }
        if imsg_b.len() < 2 {
            return Err("message index must have at least 2 digits".to_owned());
        }
        if !check_digits(imsg_b) {
            return Err("message index must be digits".to_owned());
        }
        if phrase_b.len() < 20 {
            return Err("phrase must have at least 20 characters".to_owned());
        }
        let ghost persng = persn.spec_bytes();
        let ghost indg = ind.spec_bytes();
        let ghost phraseg = phrase.spec_bytes();
        let ghost imsgg = imsg.spec_bytes();
        proof {
            assert(vic_input_ok(persng, indg, phraseg, imsgg));
        }
        let imsg_int: Vec<u8> = digits_of(imsg_b);
        let ikey5: Vec<u8> = digits_of(ind5);
        let ph1: Vec<u8> = phkey(vstd::slice::slice_subrange(phrase_b, 0, 10));
        let ph2: Vec<u8> = phkey(vstd::slice::slice_subrange(phrase_b, 10, 20));
        let mut first: Vec<u8> = submod10(imsg_int.as_slice(), ikey5.as_slice());
        first = chainadd_extend(first.as_slice(), 5);
        addmod10_inplace(&mut first, ph1.as_slice());
        let second: Vec<u8> = first_encode(first.as_slice(), ph2.as_slice());
        let ghost keys = spec_expand_key(phraseg, spec_digits(imsgg), spec_digits(
            indg.subrange(0, 5),
        ));
        proof {
            assert(second@ == keys.0);
        }
        let mut third: Vec<u8> = Vec::new();
        third.extend_from_slice(second.as_slice());
        proof {
            assert(third@ =~= second@);
            assert(third@ == spec_chainadd_n(second@, 0));
        }
        let mut round: usize = 0;
        while round < 5
            invariant
                all_small(second@),
                all_small(third@),
                round <= 5,
                third@ == spec_chainadd_n(second@, round as int),
            decreases 5 - round,
        {
            chainadd_inplace(&mut third);
            round = round + 1;
        }
        proof {
            assert(third@ == keys.1);
        }
        proof {
            lemma_chainadd_n_len(second@, 5);
            assert(2 <= second@.len() <= 10);
            assert(third@.len() == second@.len());
        }
        let third_ascii: Vec<u8> = to_ascii_digits(third.as_slice());
        let sckey: Vec<u8> = helpers::rank_bytes(third_ascii.as_slice());
        proof {
            assert forall|k: int| 0 <= k < sckey@.len() implies #[trigger] sckey@[k] <= 9 by {
                helpers::lemma_rank_bound(third_ascii@, k);
            }
        }
        proof {
            assert(sckey@ == keys.2);
        }
        let sckey_ascii: Vec<u8> = to_ascii_digits(sckey.as_slice());
        proof {
            assert forall|k: int| 0 <= k < sckey@.len() implies #[trigger] sckey@[k] <= 9 by {
                helpers::lemma_rank_bound(third_ascii@, k);
            }
            assert(forall|k: int|
                0 <= k < sckey_ascii@.len() ==> #[trigger] sckey_ascii@[k] < 128);
        }
        let sc_key_str: String = helpers::ascii_to_string(sckey_ascii);
        let firsttp = Transposition::new_from_bytes(second.as_slice());
        let secondtp = IrregularTransposition::new_from_bytes(third.as_slice());
        let freq = "ATONESIR";
        let alphabet = "ABCDEFGHIJKLMNOPQRSTUVWXYZ/-";
        let sc_key_ref: &str = sc_key_str.as_str();
        proof {
            lemma_vic_freq(freq);
            lemma_vic_alphabet(alphabet);
            helpers::lemma_ascii_bytes(sc_key_ref);
        }
        let sc_res = StraddlingCheckerboard::new_with_freq(sc_key_ref, persn, freq, alphabet);
        match sc_res {
            Ok(sc) => {
                let c = VicCipher { firsttp, secondtp, sc };
                proof {
                    let b = spec_vic_build(persng, indg, phraseg, imsgg);
                    assert(c@.0 == b.0);
                    assert(c@.1 == b.1);
                    assert(sc_key_ref.spec_bytes() =~= spec_to_ascii(keys.2)) by {
                        assert(helpers::bytes_of(sc_key_str@) =~= spec_to_ascii(keys.2));
                    }
                    assert(c@.2 == b.2);
                }
                Ok(c)
            },
            Err(e) => {
                proof {
                    assert(false);
                }
                Err(e)
            },
        }
    }
}

impl Block for VicCipher {
    open spec fn wf(&self) -> bool {
        &&& 1 <= self@.0.len() <= 256
        &&& crate::transposition::is_perm(self@.0)
        &&& 1 <= self@.1.len() <= 256
        &&& crate::transposition::is_perm(self@.1)
        &&& crate::straddling::sc_wf(self@.2)
    }

    open spec fn spec_block_size(&self) -> int {
        1
    }

    open spec fn enc_ok(&self, src: Seq<u8>) -> bool {
        &&& spec_sc_enc(self@.2, src).len() <= 3 * src.len()
        &&& src.len() * 3 <= usize::MAX - 256
    }

    open spec fn dec_ok(&self, src: Seq<u8>) -> bool {
        src.len() <= usize::MAX - 256
    }

    open spec fn spec_enc(&self, src: Seq<u8>) -> Seq<u8> {
        spec_irr_enc(self@.1, spec_trans_enc(self@.0, spec_sc_enc(self@.2, src)))
    }

    open spec fn spec_dec(&self, src: Seq<u8>) -> Seq<u8> {
        spec_sc_dec(self@.2, spec_trans_dec(self@.0, spec_irr_dec(self@.1, src)))
    }

    fn block_size(&self) -> (n: usize) {
        1
    }

    fn encrypt(&self, dst: &mut Vec<u8>, src: &[u8]) -> (n: usize) {
        let ghost out = self.spec_enc(src@);
        let mut buf_sc: Vec<u8> = vec![0u8; src.len() * 3];
        let sc_len: usize = self.sc.encrypt(&mut buf_sc, src);
        let sc_part: &[u8] = vstd::slice::slice_subrange(buf_sc.as_slice(), 0, sc_len);
        proof {
            crate::transposition::lemma_trans_enc_len(self@.0, sc_part@);
        }
        let mut buf_tp1: Vec<u8> = vec![0u8; sc_len];
        let tp1_len: usize = self.firsttp.encrypt(&mut buf_tp1, sc_part);
        let tp1_part: &[u8] = vstd::slice::slice_subrange(buf_tp1.as_slice(), 0, tp1_len);
        proof {
            crate::transposition::lemma_irr_enc_len(self@.1, tp1_part@);
        }
        self.secondtp.encrypt(dst, tp1_part)
    }

    fn decrypt(&self, dst: &mut Vec<u8>, src: &[u8]) -> (n: usize) {
        let ghost out = self.spec_dec(src@);
        proof {
            crate::transposition::lemma_irr_dec_len(self@.1, src@);
        }
        let mut buf_tp2: Vec<u8> = vec![0u8; src.len()];
        let tp2_len: usize = self.secondtp.decrypt(&mut buf_tp2, src);
        let tp2_part: &[u8] = vstd::slice::slice_subrange(buf_tp2.as_slice(), 0, tp2_len);
        let mut buf_tp1: Vec<u8> = vec![0u8; tp2_len];
        let tp1_len: usize = self.firsttp.decrypt(&mut buf_tp1, tp2_part);
        let tp1_part: &[u8] = vstd::slice::slice_subrange(buf_tp1.as_slice(), 0, tp1_len);
        self.sc.decrypt(dst, tp1_part)
    }
}

} // verus!
verus! {

/// Determinism: the derived keys are a pure function of the key material,
/// so two ciphers built from identical key material hold identical derived
/// keys and produce identical ciphertext for identical plaintext, and
/// recover identical plaintext from identical ciphertext.
pub proof fn lemma_vic_determinism(
    c1: &VicCipher,
    c2: &VicCipher,
    persnb: Seq<u8>,
    indb: Seq<u8>,
    phraseb: Seq<u8>,
    imsgb: Seq<u8>,
    src: Seq<u8>,
)
    requires
        c1@ == spec_vic_build(persnb, indb, phraseb, imsgb),
        c2@ == spec_vic_build(persnb, indb, phraseb, imsgb),
    ensures
        c1@ == c2@,
        c1.spec_enc(src) == c2.spec_enc(src),
        c1.spec_dec(src) == c2.spec_dec(src),
{
}

} // verus!
verus! {

/// Round trip: a VIC cipher built from key material whose two personal
/// number digits differ, and whose derived checkerboard assigned a code to
/// the escape marker `/`, recovers every plaintext over the supported
/// alphabet exactly: the three stages invert in reverse order.  The two
/// conditions are necessary: with a personal number like `88` the two
/// two-digit prefixes coincide and different letters share a code, and a
/// key that leaves the marker without a code drops every plaintext digit.
pub proof fn lemma_vic_round_trip(
    c: &VicCipher,
    persnb: Seq<u8>,
    indb: Seq<u8>,
    phraseb: Seq<u8>,
    imsgb: Seq<u8>,
    src: Seq<u8>,
)
    requires
        c.wf(),
        c@ == spec_vic_build(persnb, indb, phraseb, imsgb),
        persnb.len() >= 2,
        is_digit(persnb[0]),
        is_digit(persnb[1]),
        persnb[0] != persnb[1],
        c@.2.tabs.enc_len[47] == 2,
        crate::straddling::sc_plain_ok(c@.2, src),
    ensures
        c.spec_dec(c.spec_enc(src)) == src,
{
    let keys = spec_expand_key(phraseb, spec_digits(imsgb), spec_digits(indb.subrange(0, 5)));
    crate::straddling::lemma_sc_build_consistent(
        spec_to_ascii(keys.2),
        persnb,
        spec_vic_freq(),
        spec_default_alphabet(),
    );
    let y0 = spec_sc_enc(c@.2, src);
    let y1 = spec_trans_enc(c@.0, y0);
    crate::transposition::lemma_irr_round_trip(c@.1, y1);
    crate::transposition::lemma_trans_round_trip(c@.0, y0);
    crate::straddling::lemma_sc_round_trip(c@.2, src);
}

} // verus!
