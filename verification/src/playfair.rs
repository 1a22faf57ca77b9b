//! The Playfair cipher: digraph substitution over a five-by-five keyed
//! grid of the 25-letter alphabet (I and J sharing a cell).

use vstd::prelude::*;

use crate::helpers;

verus! {

use vstd::string::StringSliceAdditionalSpecFns;
use crate::Block;
use crate::helpers::spec_condense;

/// The 25-letter Playfair alphabet: A to Z without J.
pub open spec fn spec_pf_alphabet() -> Seq<u8> {
    Seq::new(25, |i: int| if i < 9 { (65 + i) as u8 } else { (66 + i) as u8 })
}

/// The Playfair grid tables: the cell of each letter and the letter of
/// each cell.
pub struct PfTabs {
    /// Whether a byte sits in the grid.
    pub mapped: Seq<bool>,
    /// Row of each byte.
    pub row: Seq<u8>,
    /// Column of each byte.
    pub col: Seq<u8>,
    /// Letter of each cell (row * 5 + column).
    pub cell: Seq<u8>,
}

/// The empty tables.
pub open spec fn pf_tabs_init() -> PfTabs {
    PfTabs {
        mapped: Seq::new(256, |i: int| false),
        row: Seq::new(256, |i: int| 0u8),
        col: Seq::new(256, |i: int| 0u8),
        cell: Seq::new(25, |i: int| 0u8),
    }
}

/// The tables after placing the first `n` grid cells.
pub open spec fn pf_tables(grid: Seq<u8>, n: int) -> PfTabs
    decreases n,
{
    if n <= 0 {
        pf_tabs_init()
    } else {
        let t = pf_tables(grid, n - 1);
        let ind = n - 1;
        let ch = grid[ind];
        PfTabs {
            mapped: t.mapped.update(ch as int, true),
            row: t.row.update(ch as int, (ind / 5) as u8),
            col: t.col.update(ch as int, (ind % 5) as u8),
            cell: t.cell.update(ind, ch),
        }
    }
}

/// The model of a Playfair cipher: its grid and tables.
pub struct PfView {
    /// The 25 letters of the grid, row-major.
    pub grid: Seq<u8>,
    /// The lookup tables.
    pub tabs: PfTabs,
}

/// The model built by the constructor: the key and the alphabet condensed,
/// cut to the 25 grid cells.
pub open spec fn spec_pf_build(keyb: Seq<u8>) -> PfView {
    let grid = spec_condense(keyb + spec_pf_alphabet()).subrange(0, 25);
    PfView { grid: grid, tabs: pf_tables(grid, 25) }
}

/// A well-formed Playfair model.
pub open spec fn pf_wf(v: PfView) -> bool {
    &&& v.grid.len() == 25
    &&& v.tabs.mapped.len() == 256
    &&& v.tabs.row.len() == 256
    &&& v.tabs.col.len() == 256
    &&& v.tabs.cell.len() == 25
    &&& forall|b: int| 0 <= b < 256 && v.tabs.mapped[b] ==> v.tabs.row[b] < 5 && v.tabs.col[b] < 5
}

/// The Playfair digraph transform: same-row letters shift right, same
/// column letters shift down, and a rectangle swaps columns; `opt` is 1
/// for encryption and 4 for decryption.
pub open spec fn spec_pf_transform(v: PfView, a: u8, b: u8, opt: int) -> (u8, u8) {
    let ra = v.tabs.row[a as int] as int;
    let ca = v.tabs.col[a as int] as int;
    let rb = v.tabs.row[b as int] as int;
    let cb = v.tabs.col[b as int] as int;
    if ra == rb {
        (v.tabs.cell[ra * 5 + (ca + opt) % 5], v.tabs.cell[rb * 5 + (cb + opt) % 5])
    } else if ca == cb {
        (v.tabs.cell[((ra + opt) % 5) * 5 + ca], v.tabs.cell[((rb + opt) % 5) * 5 + cb])
    } else {
        (v.tabs.cell[ra * 5 + cb], v.tabs.cell[rb * 5 + ca])
    }
}

/// The source padded with an `X` when its length is odd.
pub open spec fn spec_pf_pad(src: Seq<u8>) -> Seq<u8> {
    if src.len() % 2 == 1 {
        src.push(88u8)
    } else {
        src
    }
}

/// The digraph-by-digraph transform of an even-length buffer.
pub open spec fn spec_pf_crypt(v: PfView, s: Seq<u8>, opt: int) -> Seq<u8> {
    Seq::new(
        s.len(),
        |k: int|
            if k % 2 == 0 {
                spec_pf_transform(v, s[k], s[k + 1], opt).0
            } else {
                spec_pf_transform(v, s[k - 1], s[k], opt).1
            },
    )
}

/// Every byte of the buffer sits in the grid.
pub open spec fn pf_all_mapped(v: PfView, s: Seq<u8>) -> bool {
    forall|i: int| 0 <= i < s.len() ==> v.tabs.mapped[#[trigger] s[i] as int]
}

/// The position of a byte in a sequence.
spec fn pos_of(c: Seq<u8>, v: u8) -> int {
    choose|i: int| 0 <= i < c.len() && c[i] == v
}

/// The positions of the first `k` alphabet letters in the condensed grid.
spec fn pos_image(c: Seq<u8>, alph: Seq<u8>, k: int) -> Set<int>
    decreases k,
{
    if k <= 0 {
        Set::empty()
    } else {
        pos_image(c, alph, k - 1).insert(pos_of(c, alph[k - 1]))
    }
}

proof fn lemma_pos_image(c: Seq<u8>, alph: Seq<u8>, k: int)
    requires
        0 <= k <= alph.len(),
        forall|i: int| 0 <= i < alph.len() ==> c.contains(#[trigger] alph[i]),
        forall|i: int, j: int| 0 <= i < j < alph.len() ==> alph[i] != alph[j],
    ensures
        pos_image(c, alph, k).finite(),
        pos_image(c, alph, k).len() == k,
        forall|p: int| pos_image(c, alph, k).contains(p) ==> 0 <= p < c.len(),
    decreases k,
{
    if k > 0 {
        lemma_pos_image(c, alph, k - 1);
        let p = pos_of(c, alph[k - 1]);
        assert(c.contains(alph[k - 1]));
        assert(0 <= p < c.len() && c[p] == alph[k - 1]);
        assert(!pos_image(c, alph, k - 1).contains(p)) by {
            if pos_image(c, alph, k - 1).contains(p) {
                lemma_pos_image_vals(c, alph, k - 1, p);
            }
        }
    }
}

proof fn lemma_pos_image_vals(c: Seq<u8>, alph: Seq<u8>, k: int, p: int)
    requires
        0 <= k <= alph.len(),
        forall|i: int| 0 <= i < alph.len() ==> c.contains(#[trigger] alph[i]),
        pos_image(c, alph, k).contains(p),
    ensures
        exists|i: int| 0 <= i < k && 0 <= p < c.len() && c[p] == alph[i],
    decreases k,
{
    if k > 0 {
        if p == pos_of(c, alph[k - 1]) {
            assert(c.contains(alph[k - 1]));
            let q = pos_of(c, alph[k - 1]);
            assert(0 <= q < c.len() && c[q] == alph[k - 1]);
            assert(0 <= k - 1 < k && 0 <= p < c.len() && c[p] == alph[k - 1]);
        } else {
            lemma_pos_image_vals(c, alph, k - 1, p);
        }
    }
}

/// A sequence holding 25 distinct letters has at least 25 entries.
proof fn lemma_condensed_holds_alphabet(keyb: Seq<u8>)
    ensures
        spec_condense(keyb + spec_pf_alphabet()).len() >= 25,
{
    let s = keyb + spec_pf_alphabet();
    let c = spec_condense(s);
    let alph = spec_pf_alphabet();
    assert forall|i: int| 0 <= i < alph.len() implies c.contains(#[trigger] alph[i]) by {
        assert(s[keyb.len() + i] == alph[i]);
        assert(s.contains(alph[i]));
        helpers::lemma_condense_contains(s, alph[i]);
    }
    lemma_pos_image(c, alph, 25);
    let img = pos_image(c, alph, 25);
    let range = vstd::set_lib::set_int_range(0, c.len() as int);
    vstd::set_lib::lemma_int_range(0, c.len() as int);
    assert(img.subset_of(range));
    vstd::set_lib::lemma_len_subset(img, range);
}

proof fn lemma_pf_tabs_lens(grid: Seq<u8>, n: int)
    requires
        0 <= n <= 25,
        grid.len() == 25,
    ensures
        ({
            let t = pf_tables(grid, n);
            t.mapped.len() == 256 && t.row.len() == 256 && t.col.len() == 256 && t.cell.len()
                == 25 && forall|b: int|
                0 <= b < 256 && t.mapped[b] ==> t.row[b] < 5 && t.col[b] < 5
        }),
    decreases n,
{
    if n > 0 {
        lemma_pf_tabs_lens(grid, n - 1);
        vstd::arithmetic::div_mod::lemma_mod_bound(n - 1, 5);
        vstd::arithmetic::div_mod::lemma_div_pos_is_pos(n - 1, 5);
        assert((n - 1) / 5 < 5) by (nonlinear_arith)
            requires
                0 <= n - 1 < 25,
        ;
    }
}

/// A Playfair cipher.
pub struct PlayfairCipher {
    key: Vec<u8>,
    mapped: Vec<bool>,
    row: Vec<u8>,
    col: Vec<u8>,
    cell: Vec<u8>,
}

impl View for PlayfairCipher {
    type V = PfView;

    /// The cipher is modelled by its grid and tables.
    closed spec fn view(&self) -> PfView {
        PfView {
            grid: self.key@,
            tabs: PfTabs {
                mapped: self.mapped@,
                row: self.row@,
                col: self.col@,
                cell: self.cell@,
            },
        }
    }
}

impl PlayfairCipher {
    /// Creates a new Playfair cipher with the given keyword.
    pub fn new(key: &str) -> (c: Self)
        requires
            key.is_ascii(),
            key@.len() <= 100000000,
        ensures
            c.wf(),
            c@ == spec_pf_build(key.spec_bytes()),
    {
        proof {
            helpers::lemma_ascii_bytes(key);
        }
        let mut combined: Vec<u8> = Vec::new();
        combined.extend_from_slice(key.as_bytes());
        let mut b: u8 = 65;
        while b <= 90
            invariant
                65 <= b <= 91,
                combined@.subrange(0, key.spec_bytes().len() as int) == key.spec_bytes(),
                combined@.len() == key.spec_bytes().len() + (if b <= 74 {
                    (b - 65) as int
                } else {
                    (b - 66) as int
                }),
                forall|k: int|
                    key.spec_bytes().len() <= k < combined@.len() ==> combined@[k]
                        == spec_pf_alphabet()[k - key.spec_bytes().len()],
            decreases 91 - b,
        {
            if b != 74 {
                combined.push(b);
                proof {
                    assert(combined@.subrange(0, key.spec_bytes().len() as int)
                        =~= key.spec_bytes());
                }
            }
            b = b + 1;
        }
        proof {
            assert(combined@ =~= key.spec_bytes() + spec_pf_alphabet());
        }
        let cond: Vec<u8> = helpers::condense_bytes(combined.as_slice());
        proof {
            lemma_condensed_holds_alphabet(key.spec_bytes());
        }
        let ghost grid = spec_condense(key.spec_bytes() + spec_pf_alphabet()).subrange(0, 25);
        let mut keyv: Vec<u8> = Vec::new();
        let mut mapped: Vec<bool> = vec![false; 256];
        let mut row: Vec<u8> = vec![0u8; 256];
        let mut col: Vec<u8> = vec![0u8; 256];
        let mut cell: Vec<u8> = vec![0u8; 25];
        proof {
            assert(mapped@ =~= pf_tabs_init().mapped);
            assert(row@ =~= pf_tabs_init().row);
            assert(col@ =~= pf_tabs_init().col);
            assert(cell@ =~= pf_tabs_init().cell);
        }
        let mut ind: usize = 0;
        while ind < 25
            invariant
                cond@.len() >= 25,
                grid == cond@.subrange(0, 25),
                ind <= 25,
                keyv@ == grid.subrange(0, ind as int),
                ({
                    let t = pf_tables(grid, ind as int);
                    mapped@ == t.mapped && row@ == t.row && col@ == t.col && cell@ == t.cell
                }),
            decreases 25 - ind,
        {
            proof {
                lemma_pf_tabs_lens(grid, ind as int);
                vstd::arithmetic::div_mod::lemma_mod_bound(ind as int, 5);
                vstd::arithmetic::div_mod::lemma_div_pos_is_pos(ind as int, 5);
                assert((ind as int) / 5 < 5) by (nonlinear_arith)
                    requires
                        0 <= (ind as int) < 25,
                ;
            }
            let ch: u8 = cond[ind];
            proof {
                assert(grid[ind as int] == cond@[ind as int]);
            }
            keyv.push(ch);
            mapped[ch as usize] = true;
            row[ch as usize] = (ind / 5) as u8;
            col[ch as usize] = (ind % 5) as u8;
            cell[ind] = ch;
            proof {
                assert(keyv@ =~= grid.subrange(0, ind as int + 1));
            }
            ind = ind + 1;
        }
        let c = PlayfairCipher { key: keyv, mapped, row, col, cell };
        proof {
            assert(c@.grid =~= grid);
            lemma_pf_tabs_lens(grid, 25);
        }
        c
    }

    /// Transforms one digraph; `opt` is 1 for encryption and 4 for
    /// decryption.
    fn transform(&self, a: u8, b: u8, opt: u8) -> (r: (u8, u8))
        requires
            self.wf(),
            self@.tabs.mapped[a as int],
            self@.tabs.mapped[b as int],
            1 <= opt <= 4,
        ensures
            r == spec_pf_transform(self@, a, b, opt as int),
    {
        let ra: u8 = self.row[a as usize];
        let ca: u8 = self.col[a as usize];
        let rb: u8 = self.row[b as usize];
        let cb: u8 = self.col[b as usize];
        if ra == rb {
            (
                self.cell[(ra as usize) * 5 + ((ca + opt) as usize) % 5],
                self.cell[(rb as usize) * 5 + ((cb + opt) as usize) % 5],
            )
        } else if ca == cb {
            (
                self.cell[(((ra + opt) as usize) % 5) * 5 + ca as usize],
                self.cell[(((rb + opt) as usize) % 5) * 5 + cb as usize],
            )
        } else {
            (self.cell[(ra as usize) * 5 + cb as usize], self.cell[(rb as usize) * 5 + ca as usize])
        }
    }
}

impl Block for PlayfairCipher {
    open spec fn wf(&self) -> bool {
        pf_wf(self@)
    }

    open spec fn spec_block_size(&self) -> int {
        2
    }

    open spec fn enc_ok(&self, src: Seq<u8>) -> bool {
        &&& pf_all_mapped(self@, spec_pf_pad(src))
        &&& src.len() < usize::MAX
    }

    open spec fn dec_ok(&self, src: Seq<u8>) -> bool {
        &&& src.len() % 2 == 0
        &&& pf_all_mapped(self@, src)
    }

    open spec fn spec_enc(&self, src: Seq<u8>) -> Seq<u8> {
        spec_pf_crypt(self@, spec_pf_pad(src), 1)
    }

    open spec fn spec_dec(&self, src: Seq<u8>) -> Seq<u8> {
        spec_pf_crypt(self@, src, 4)
    }

    fn block_size(&self) -> (n: usize) {
        2
    }

    fn encrypt(&self, dst: &mut Vec<u8>, src: &[u8]) -> (n: usize) {
        let mut padded: Vec<u8> = Vec::new();
        padded.extend_from_slice(src);
        if padded.len() % 2 == 1 {
            padded.push(88);
        }
        proof {
            assert(padded@ == spec_pf_pad(src@));
        }
        let ghost s = padded@;
        let ghost out = spec_pf_crypt(self@, s, 1);
        let len: usize = padded.len();
        proof {
            assert(len % 2 == 0);
        }
        let mut i: usize = 0;
        while i < len
            invariant
                self.wf(),
                pf_all_mapped(self@, s),
                s == padded@,
                len == s.len(),
                len % 2 == 0,
                out == spec_pf_crypt(self@, s, 1),
                out.len() == len,
                i <= len,
                i % 2 == 0,
                dst@.len() == old(dst)@.len() >= len,
                forall|k: int| 0 <= k < i ==> dst@[k] == out[k],
                forall|k: int| i <= k < dst@.len() ==> dst@[k] == old(dst)@[k],
            decreases len - i,
        {
            let bg = self.transform(padded[i], padded[i + 1], 1);
            dst[i] = bg.0;
            dst[i + 1] = bg.1;
            proof {
                assert(out[i as int] == spec_pf_transform(self@, s[i as int], s[i as int + 1], 1).0);
                assert(out[i as int + 1] == spec_pf_transform(
                    self@,
                    s[i as int],
                    s[i as int + 1],
                    1,
                ).1);
            }
            i = i + 2;
        }
        proof {
            assert(dst@.subrange(0, len as int) =~= out);
            assert(dst@.skip(len as int) =~= old(dst)@.skip(len as int));
        }
        len
    }

    fn decrypt(&self, dst: &mut Vec<u8>, src: &[u8]) -> (n: usize) {
        let ghost out = spec_pf_crypt(self@, src@, 4);
        let len: usize = src.len();
        let mut i: usize = 0;
        while i < len
            invariant
                self.wf(),
                pf_all_mapped(self@, src@),
                len == src@.len(),
                len % 2 == 0,
                out == spec_pf_crypt(self@, src@, 4),
                out.len() == len,
                i <= len,
                i % 2 == 0,
                dst@.len() == old(dst)@.len() >= len,
                forall|k: int| 0 <= k < i ==> dst@[k] == out[k],
                forall|k: int| i <= k < dst@.len() ==> dst@[k] == old(dst)@[k],
            decreases len - i,
        {
            let bg = self.transform(src[i], src[i + 1], 4);
            dst[i] = bg.0;
            dst[i + 1] = bg.1;
            proof {
                assert(out[i as int] == spec_pf_transform(
                    self@,
                    src@[i as int],
                    src@[i as int + 1],
                    4,
                ).0);
                assert(out[i as int + 1] == spec_pf_transform(
                    self@,
                    src@[i as int],
                    src@[i as int + 1],
                    4,
                ).1);
            }
            i = i + 2;
        }
        proof {
            assert(dst@.subrange(0, len as int) =~= out);
            assert(dst@.skip(len as int) =~= old(dst)@.skip(len as int));
        }
        len
    }
}

} // verus!
