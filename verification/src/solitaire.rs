//! The solitaire cipher: a 54-card deck (two jokers) generates a keystream
//! by moving the jokers, a triple cut around them, and a count cut; each
//! letter is shifted by the next keystream value.

use vstd::prelude::*;

verus! {

use vstd::string::StringSliceAdditionalSpecFns;
use crate::Block;

/// Most draws yield a card after one deck advance; the search is bounded
/// so that every call terminates, and a deck that would keep yielding
/// jokers past the bound leaves its letter unshifted.
pub const STEP_FUEL: usize = 10000;

/// The first position of a card, or zero when absent.
pub open spec fn sol_first(s: Seq<u8>, v: u8, i: int) -> int
    decreases s.len() - i,
{
    if i < 0 || i >= s.len() {
        0
    } else if s[i] == v {
        i
    } else {
        sol_first(s, v, i + 1)
    }
}

proof fn lemma_sol_first(s: Seq<u8>, v: u8, i: int)
    requires
        0 <= i <= s.len(),
    ensures
        0 <= sol_first(s, v, i),
        sol_first(s, v, i) < s.len() || s.len() == 0,
    decreases s.len() - i,
{
    if 0 <= i < s.len() && s[i] != v {
        lemma_sol_first(s, v, i + 1);
    }
}

/// One joker move: the joker swaps with the card below it, or wraps from
/// the bottom to the second place.
pub open spec fn spec_move_joker1(d: Seq<u8>, joker: u8) -> Seq<u8> {
    let pos = sol_first(d, joker, 0);
    if pos == d.len() - 1 {
        d.take(1) + seq![d[pos]] + d.subrange(1, d.len() - 1)
    } else {
        d.update(pos, d[pos + 1]).update(pos + 1, d[pos])
    }
}

/// A joker moved down `n` places.
pub open spec fn spec_move_joker(d: Seq<u8>, joker: u8, n: int) -> Seq<u8>
    decreases n,
{
    if n <= 0 {
        d
    } else {
        spec_move_joker1(spec_move_joker(d, joker, n - 1), joker)
    }
}

/// The triple cut: the cards above the first joker and below the second
/// change places.
pub open spec fn spec_triple_cut(d: Seq<u8>) -> Seq<u8> {
    let pa = sol_first(d, 53, 0);
    let pb = sol_first(d, 54, 0);
    let top = if pa <= pb {
        pa
    } else {
        pb
    };
    let bot = if pa <= pb {
        pb
    } else {
        pa
    };
    d.skip(bot + 1) + d.subrange(top, bot + 1) + d.take(top)
}

/// The count cut: the top `count` cards move just above the bottom card.
pub open spec fn spec_count_cut(d: Seq<u8>, count: int) -> Seq<u8> {
    if count < 53 && d.len() == 54 {
        d.subrange(count, 53) + d.take(count) + seq![d[53]]
    } else {
        d
    }
}

/// One full deck advance: both joker moves, the triple cut, and the count
/// cut keyed by the bottom card.
pub open spec fn spec_advance(d: Seq<u8>) -> Seq<u8> {
    let d1 = spec_move_joker(d, 53, 1);
    let d2 = spec_move_joker(d1, 54, 2);
    let d3 = spec_triple_cut(d2);
    let lv = d3[d3.len() - 1];
    spec_count_cut(
        d3,
        if lv > 52 {
            53int
        } else {
            lv as int
        },
    )
}

/// The next keystream value: the deck advances until the counted-to card
/// is not a joker, within the step bound.
pub open spec fn spec_step(d: Seq<u8>, fuel: int) -> (Seq<u8>, u8)
    decreases fuel,
{
    if fuel <= 0 || d.len() != 54 {
        (d, 0u8)
    } else {
        let d2 = spec_advance(d);
        let fv = d2[0];
        let count = if fv > 52 {
            53int
        } else {
            fv as int
        };
        let out = d2[count];
        if out <= 52 {
            (
                d2,
                if out > 26 {
                    (out - 26) as u8
                } else {
                    out
                },
            )
        } else {
            spec_step(d2, fuel - 1)
        }
    }
}

/// The keystream value never exceeds 26.
proof fn lemma_step_val(d: Seq<u8>, fuel: int)
    ensures
        0 <= spec_step(d, fuel).1 <= 26,
        spec_step(d, fuel).0.len() == d.len(),
    decreases fuel,
{
    if fuel > 0 && d.len() == 54 {
        lemma_advance_len(d);
        let d2 = spec_advance(d);
        let fv = d2[0];
        let count = if fv > 52 {
            53int
        } else {
            fv as int
        };
        if !(d2[count] <= 52) {
            lemma_step_val(d2, fuel - 1);
        }
    }
}

/// An ASCII letter.
pub open spec fn sol_is_alpha(b: u8) -> bool {
    (65 <= b <= 90) || (97 <= b <= 122)
}

/// The letter's value, 1 for A up to 26 for Z.
pub open spec fn sol_val(b: u8) -> int {
    if 65 <= b <= 90 {
        b - 64
    } else {
        b - 96
    }
}

/// The transform of one buffer: each letter is shifted by the next
/// keystream value, every other byte passes through, and the deck only
/// advances on letters.
pub open spec fn spec_sol_crypt(d: Seq<u8>, enc: bool, src: Seq<u8>) -> Seq<u8>
    decreases src.len(),
{
    if src.len() == 0 {
        Seq::empty()
    } else {
        let b = src[0];
        if sol_is_alpha(b) {
            let st = spec_step(d, STEP_FUEL as int);
            let p = sol_val(b);
            let k = st.1 as int;
            let c = if enc {
                (p + k - 1) % 26 + 1
            } else {
                if p > k {
                    p - k
                } else {
                    p + 26 - k
                }
            };
            seq![(c + 64) as u8] + spec_sol_crypt(st.0, enc, src.skip(1))
        } else {
            seq![b] + spec_sol_crypt(d, enc, src.skip(1))
        }
    }
}

proof fn lemma_sol_crypt_len(d: Seq<u8>, enc: bool, src: Seq<u8>)
    ensures
        spec_sol_crypt(d, enc, src).len() == src.len(),
    decreases src.len(),
{
    if src.len() > 0 {
        let b = src[0];
        if sol_is_alpha(b) {
            let st = spec_step(d, STEP_FUEL as int);
            lemma_sol_crypt_len(st.0, enc, src.skip(1));
        } else {
            lemma_sol_crypt_len(d, enc, src.skip(1));
        }
    }
}

/// The deck keeps its 54 cards through every operation.
proof fn lemma_ops_len(d: Seq<u8>)
    requires
        d.len() == 54,
    ensures
        spec_move_joker1(d, 53).len() == 54,
        spec_move_joker1(d, 54).len() == 54,
        spec_triple_cut(d).len() == 54,
{
    lemma_sol_first(d, 53, 0);
    lemma_sol_first(d, 54, 0);
}

proof fn lemma_move_len(d: Seq<u8>, joker: u8, n: int)
    requires
        d.len() == 54,
    ensures
        spec_move_joker(d, joker, n).len() == 54,
    decreases n,
{
    if n > 0 {
        lemma_move_len(d, joker, n - 1);
        lemma_sol_first(spec_move_joker(d, joker, n - 1), joker, 0);
    }
}

proof fn lemma_advance_len(d: Seq<u8>)
    requires
        d.len() == 54,
    ensures
        spec_advance(d).len() == 54,
{
    lemma_move_len(d, 53, 1);
    lemma_move_len(spec_move_joker(d, 53, 1), 54, 2);
    lemma_ops_len(spec_move_joker(spec_move_joker(d, 53, 1), 54, 2));
}

/// The deck keyed by a passphrase: one advance and one count cut per
/// letter.
pub open spec fn spec_keyed_deck(d: Seq<u8>, pass: Seq<u8>) -> Seq<u8>
    decreases pass.len(),
{
    if pass.len() == 0 {
        d
    } else {
        let b = pass[0];
        if sol_is_alpha(b) {
            spec_keyed_deck(spec_count_cut(spec_advance(d), sol_val(b)), pass.skip(1))
        } else {
            spec_keyed_deck(d, pass.skip(1))
        }
    }
}

/// The deck in factory order, 1 to 54.
pub open spec fn spec_fresh_deck() -> Seq<u8> {
    Seq::new(54, |i: int| (i + 1) as u8)
}

/// A solitaire cipher with its initial deck.
pub struct Solitaire {
    deck: Vec<u8>,
}

impl View for Solitaire {
    type V = Seq<u8>;

    /// The cipher is modelled by its initial deck.
    closed spec fn view(&self) -> Seq<u8> {
        self.deck@
    }
}

impl Solitaire {
    /// Creates a new solitaire cipher from a 54-card deck.
    pub fn new(deck: Vec<u8>) -> (c: Self)
        requires
            deck@.len() == 54,
        ensures
            c.wf(),
            c@ == deck@,
    {
        Solitaire { deck }
    }

    /// Creates a solitaire cipher with the unkeyed deck, 1 to 54.
    pub fn new_unkeyed() -> (c: Self)
        ensures
            c.wf(),
            c@ == spec_fresh_deck(),
    {
        Solitaire::new(Self::fresh_deck())
    }

    fn fresh_deck() -> (d: Vec<u8>)
        ensures
            d@ == spec_fresh_deck(),
            d@.len() == 54,
    {
        let mut d: Vec<u8> = Vec::new();
        let mut v: u8 = 1;
        while v <= 54
            invariant
                1 <= v <= 55,
                d@.len() == v - 1,
                forall|k: int| 0 <= k < d@.len() ==> d@[k] == k + 1,
            decreases 55 - v,
        {
            d.push(v);
            v = v + 1;
        }
        proof {
            assert(d@ =~= spec_fresh_deck());
        }
        d
    }

    /// Creates a solitaire cipher with a deck keyed by a passphrase.
    pub fn new_with_passphrase(passphrase: &str) -> (c: Self)
        requires
            passphrase.is_ascii(),
        ensures
            c.wf(),
            c@ == spec_keyed_deck(spec_fresh_deck(), passphrase.spec_bytes()),
    {
        proof {
            crate::helpers::lemma_ascii_bytes(passphrase);
        }
        let pass: &[u8] = passphrase.as_bytes();
        let mut deck: Vec<u8> = Self::fresh_deck();
        let n: usize = pass.len();
        let mut i: usize = 0;
        proof {
            assert(pass@.skip(0) =~= pass@);
        }
        while i < n
            invariant
                n == pass@.len(),
                i <= n,
                deck@.len() == 54,
                spec_keyed_deck(deck@, pass@.skip(i as int)) == spec_keyed_deck(
                    spec_fresh_deck(),
                    pass@,
                ),
            decreases n - i,
        {
            let ghost rest = pass@.skip(i as int);
            proof {
                assert(rest[0] == pass@[i as int]);
                assert(rest.skip(1) =~= pass@.skip(i as int + 1));
            }
            let ch: u8 = pass[i];
            if (65 <= ch && ch <= 90) || (97 <= ch && ch <= 122) {
                let val: usize = if ch <= 90 {
                    (ch - 64) as usize
                } else {
                    (ch - 96) as usize
                };
                deck = Self::advance_deck(deck);
                deck = Self::count_cut(deck, val);
            }
            i = i + 1;
        }
        Solitaire::new(deck)
    }

    /// Moves a joker down one place, wrapping from the bottom to the
    /// second place.
    fn move_joker1(d: Vec<u8>, joker: u8) -> (r: Vec<u8>)
        requires
            d@.len() == 54,
        ensures
            r@ == spec_move_joker1(d@, joker),
            r@.len() == 54,
    {
        proof {
            lemma_sol_first(d@, joker, 0);
        }
        let mut pos: usize = 0;
        let mut i: usize = 0;
        let mut found: bool = false;
        while i < 54
            invariant
                d@.len() == 54,
                i <= 54,
                !found ==> pos == 0,
                !found ==> sol_first(d@, joker, 0) == sol_first(d@, joker, i as int),
                !found ==> forall|k: int| 0 <= k < i ==> d@[k] != joker,
                found ==> pos as int == sol_first(d@, joker, 0) && pos < 54,
            decreases 54 - i,
        {
            if !found && d[i] == joker {
                pos = i;
                found = true;
            }
            i = i + 1;
        }
        proof {
            if !found {
                assert(sol_first(d@, joker, 54) == 0);
                assert(pos as int == sol_first(d@, joker, 0));
            }
        }
        if pos == 53 {
            let mut r: Vec<u8> = Vec::new();
            r.push(d[0]);
            r.push(d[53]);
            let mut k: usize = 1;
            while k < 53
                invariant
                    d@.len() == 54,
                    1 <= k <= 53,
                    r@ == d@.take(1) + seq![d@[53]] + d@.subrange(1, k as int),
                decreases 53 - k,
            {
                r.push(d[k]);
                proof {
                    assert(r@ =~= d@.take(1) + seq![d@[53]] + d@.subrange(1, k as int + 1));
                }
                k = k + 1;
            }
            proof {
                assert(r@ =~= spec_move_joker1(d@, joker));
            }
            r
        } else {
            let a: u8 = d[pos];
            let b: u8 = d[pos + 1];
            let mut r = d;
            r[pos] = b;
            r[pos + 1] = a;
            proof {
                assert(r@ =~= spec_move_joker1(d@, joker));
            }
            r
        }
    }

    /// Performs the count cut: the top `count` cards move just above the
    /// bottom card.
    fn count_cut(d: Vec<u8>, count: usize) -> (r: Vec<u8>)
        requires
            d@.len() == 54,
        ensures
            r@ == spec_count_cut(d@, count as int),
            r@.len() == 54,
    {
        if count < 53 {
            let mut r: Vec<u8> = Vec::new();
            let mut i: usize = count;
            while i < 53
                invariant
                    d@.len() == 54,
                    count <= i <= 53,
                    count < 53,
                    r@ == d@.subrange(count as int, i as int),
                decreases 53 - i,
            {
                r.push(d[i]);
                proof {
                    assert(r@ =~= d@.subrange(count as int, i as int + 1));
                }
                i = i + 1;
            }
            let mut j: usize = 0;
            while j < count
                invariant
                    d@.len() == 54,
                    j <= count < 53,
                    r@ == d@.subrange(count as int, 53) + d@.subrange(0, j as int),
                decreases count - j,
            {
                r.push(d[j]);
                proof {
                    assert(r@ =~= d@.subrange(count as int, 53) + d@.subrange(0, j as int + 1));
                }
                j = j + 1;
            }
            r.push(d[53]);
            proof {
                assert(d@.take(count as int) =~= d@.subrange(0, count as int));
                assert(r@ =~= spec_count_cut(d@, count as int));
            }
            r
        } else {
            d
        }
    }

    /// Advances the deck one full cycle: joker moves, triple cut, count
    /// cut.
    fn advance_deck(d: Vec<u8>) -> (r: Vec<u8>)
        requires
            d@.len() == 54,
        ensures
            r@ == spec_advance(d@),
            r@.len() == 54,
    {
        let ghost dg = d@;
        let d1 = Self::move_joker1(d, 53);
        let d2a = Self::move_joker1(d1, 54);
        let d2 = Self::move_joker1(d2a, 54);
        proof {
            assert(spec_move_joker(dg, 53, 0) == dg);
            assert(d1@ == spec_move_joker(dg, 53, 1));
            assert(spec_move_joker(d1@, 54, 0) == d1@);
            assert(spec_move_joker(d1@, 54, 1) == spec_move_joker1(d1@, 54));
            assert(d2@ == spec_move_joker(d1@, 54, 2));
        }
        let mut pa: usize = 0;
        let mut pb: usize = 0;
        let mut fa: bool = false;
        let mut fb: bool = false;
        let mut i: usize = 0;
        while i < 54
            invariant
                d2@.len() == 54,
                i <= 54,
                !fa ==> pa == 0,
                !fa ==> sol_first(d2@, 53, 0) == sol_first(d2@, 53, i as int),
                !fa ==> forall|k: int| 0 <= k < i ==> d2@[k] != 53,
                fa ==> pa as int == sol_first(d2@, 53, 0) && pa < 54,
                !fb ==> pb == 0,
                !fb ==> sol_first(d2@, 54, 0) == sol_first(d2@, 54, i as int),
                !fb ==> forall|k: int| 0 <= k < i ==> d2@[k] != 54,
                fb ==> pb as int == sol_first(d2@, 54, 0) && pb < 54,
            decreases 54 - i,
        {
            if !fa && d2[i] == 53 {
                pa = i;
                fa = true;
            }
            if !fb && d2[i] == 54 {
                pb = i;
                fb = true;
            }
            i = i + 1;
        }
        proof {
            if !fa {
                assert(sol_first(d2@, 53, 54) == 0);
                assert(pa as int == sol_first(d2@, 53, 0));
            }
            if !fb {
                assert(sol_first(d2@, 54, 54) == 0);
                assert(pb as int == sol_first(d2@, 54, 0));
            }
        }
        let top: usize = if pa <= pb {
            pa
        } else {
            pb
        };
        let bot: usize = if pa <= pb {
            pb
        } else {
            pa
        };
        let mut d3: Vec<u8> = Vec::new();
        let mut k: usize = bot + 1;
        while k < 54
            invariant
                d2@.len() == 54,
                bot < 54,
                bot + 1 <= k <= 54,
                d3@ == d2@.subrange(bot as int + 1, k as int),
            decreases 54 - k,
        {
            d3.push(d2[k]);
            proof {
                assert(d3@ =~= d2@.subrange(bot as int + 1, k as int + 1));
            }
            k = k + 1;
        }
        let mut m: usize = top;
        while m < bot + 1
            invariant
                d2@.len() == 54,
                top <= bot < 54,
                top <= m <= bot + 1,
                d3@ == d2@.subrange(bot as int + 1, 54) + d2@.subrange(top as int, m as int),
            decreases bot + 1 - m,
        {
            d3.push(d2[m]);
            proof {
                assert(d3@ =~= d2@.subrange(bot as int + 1, 54) + d2@.subrange(
                    top as int,
                    m as int + 1,
                ));
            }
            m = m + 1;
        }
        let mut t: usize = 0;
        while t < top
            invariant
                d2@.len() == 54,
                top <= bot < 54,
                t <= top,
                d3@ == d2@.subrange(bot as int + 1, 54) + d2@.subrange(top as int, bot as int + 1)
                    + d2@.subrange(0, t as int),
            decreases top - t,
        {
            d3.push(d2[t]);
            proof {
                assert(d3@ =~= d2@.subrange(bot as int + 1, 54) + d2@.subrange(
                    top as int,
                    bot as int + 1,
                ) + d2@.subrange(0, t as int + 1));
            }
            t = t + 1;
        }
        proof {
            assert(d2@.subrange(bot as int + 1, 54) =~= d2@.skip(bot as int + 1));
            assert(d2@.subrange(0, top as int) =~= d2@.take(top as int));
            assert(d3@ =~= spec_triple_cut(d2@));
            assert(d3@.len() == 54);
        }
        let lv: u8 = d3[53];
        let cnt: usize = if lv > 52 {
            53
        } else {
            lv as usize
        };
        Self::count_cut(d3, cnt)
    }

    /// Produces the next keystream value from a deck, bounded by the step
    /// fuel.
    pub fn step(deck: &Vec<u8>) -> (r: (Vec<u8>, u8))
        requires
            deck@.len() == 54,
        ensures
            (r.0@, r.1) == spec_step(deck@, STEP_FUEL as int),
            r.0@.len() == 54,
    {
        let mut d: Vec<u8> = Vec::new();
        d.extend_from_slice(deck.as_slice());
        proof {
            assert(d@ =~= deck@);
        }
        let mut fuel: usize = STEP_FUEL;
        while fuel > 0
            invariant
                d@.len() == 54,
                fuel <= STEP_FUEL,
                spec_step(d@, fuel as int) == spec_step(deck@, STEP_FUEL as int),
            decreases fuel,
        {
            let ghost dpre = d@;
            d = Self::advance_deck(d);
            let fv: u8 = d[0];
            let count: usize = if fv > 52 {
                53
            } else {
                fv as usize
            };
            let out: u8 = d[count];
            if out <= 52 {
                let k: u8 = if out > 26 {
                    out - 26
                } else {
                    out
                };
                proof {
                    assert(spec_step(dpre, fuel as int) == (d@, k));
                }
                return (d, k);
            }
            fuel = fuel - 1;
        }
        (d, 0)
    }
}

impl Block for Solitaire {
    open spec fn wf(&self) -> bool {
        self@.len() == 54
    }

    open spec fn spec_block_size(&self) -> int {
        1
    }

    open spec fn enc_ok(&self, src: Seq<u8>) -> bool {
        true
    }

    open spec fn dec_ok(&self, src: Seq<u8>) -> bool {
        true
    }

    open spec fn spec_enc(&self, src: Seq<u8>) -> Seq<u8> {
        spec_sol_crypt(self@, true, src)
    }

    open spec fn spec_dec(&self, src: Seq<u8>) -> Seq<u8> {
        spec_sol_crypt(self@, false, src)
    }

    fn block_size(&self) -> (n: usize) {
        1
    }

    fn encrypt(&self, dst: &mut Vec<u8>, src: &[u8]) -> (n: usize) {
        self.crypt(true, dst, src)
    }

    fn decrypt(&self, dst: &mut Vec<u8>, src: &[u8]) -> (n: usize) {
        self.crypt(false, dst, src)
    }
}

impl Solitaire {
    /// Transforms a buffer letter by letter from a fresh copy of the
    /// initial deck.
    fn crypt(&self, enc: bool, dst: &mut Vec<u8>, src: &[u8]) -> (n: usize)
        requires
            self.wf(),
            old(dst)@.len() >= spec_sol_crypt(self@, enc, src@).len(),
        ensures
            n == spec_sol_crypt(self@, enc, src@).len(),
            final(dst)@.len() == old(dst)@.len(),
            final(dst)@.subrange(0, n as int) == spec_sol_crypt(self@, enc, src@),
            final(dst)@.skip(n as int) == old(dst)@.skip(n as int),
    {
        let ghost out = spec_sol_crypt(self@, enc, src@);
        proof {
            lemma_sol_crypt_len(self@, enc, src@);
            assert(src@.skip(0) =~= src@);
        }
        let mut deck: Vec<u8> = Vec::new();
        deck.extend_from_slice(self.deck.as_slice());
        proof {
            assert(deck@ =~= self@);
        }
        let len: usize = src.len();
        let mut i: usize = 0;
        while i < len
            invariant
                self.wf(),
                len == src@.len(),
                i <= len,
                deck@.len() == 54,
                out == spec_sol_crypt(self@, enc, src@),
                out.len() == len,
                dst@.len() == old(dst)@.len() >= len,
                spec_sol_crypt(deck@, enc, src@.skip(i as int)) == out.skip(i as int),
                forall|k: int| 0 <= k < i ==> dst@[k] == out[k],
                forall|k: int| i <= k < dst@.len() ==> dst@[k] == old(dst)@[k],
            decreases len - i,
        {
            let ghost rest = src@.skip(i as int);
            proof {
                assert(rest[0] == src@[i as int]);
                assert(rest.skip(1) =~= src@.skip(i as int + 1));
                assert(out.skip(i as int)[0] == out[i as int]);
                assert(out.skip(i as int).skip(1) =~= out.skip(i as int + 1));
            }
            let ch: u8 = src[i];
            if (65 <= ch && ch <= 90) || (97 <= ch && ch <= 122) {
                let p: u8 = if ch <= 90 {
                    ch - 64
                } else {
                    ch - 96
                };
                proof {
                    lemma_step_val(deck@, STEP_FUEL as int);
                }
                let sk = Self::step(&deck);
                deck = sk.0;
                let k: u8 = sk.1;
                let c: u8 = if enc {
                    ((p as usize + k as usize + 25) % 26 + 1) as u8
                } else {
                    if p > k {
                        p - k
                    } else {
                        p + 26 - k
                    }
                };
                proof {
                    assert(c as int == if enc {
                        (p as int + k as int - 1) % 26 + 1
                    } else {
                        if p > k {
                            p as int - k as int
                        } else {
                            p as int + 26 - k as int
                        }
                    }) by (nonlinear_arith)
                        requires
                            1 <= p as int <= 26,
                            0 <= k as int,
                            c as int == if enc {
                                (p as usize + k as usize + 25) as int % 26 + 1
                            } else {
                                if p > k {
                                    p as int - k as int
                                } else {
                                    p as int + 26 - k as int
                                }
                            },
                    ;
                }
                dst[i] = c + 64;
            } else {
                dst[i] = ch;
            }
            i = i + 1;
        }
        proof {
            assert(dst@.subrange(0, len as int) =~= out);
            assert(dst@.skip(len as int) =~= old(dst)@.skip(len as int));
        }
        len
    }
}

} // verus!
