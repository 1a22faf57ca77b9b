//! Columnar transposition ciphers: the regular rectangle transposition and
//! the irregular (triangular) variant used by the VIC pipeline.
//!
//! Both stages write the source row-major into a grid of `key length`
//! columns and read columns out in the order given by the key's stable
//! rank sequence.  The irregular variant first sets aside two triangular
//! regions anchored at the two lowest ranks and fills them in a second
//! pass.

use vstd::prelude::*;

use crate::helpers;

verus! {

use vstd::string::StringSliceAdditionalSpecFns;
use crate::Block;
use crate::helpers::{spec_rank, rank_at};

/// The column holding rank `r`.
pub open spec fn rank_pos(tk: Seq<u8>, r: int) -> int {
    choose|c: int| 0 <= c < tk.len() && (tk[c] as int) == r
}

/// A rank sequence is a permutation of `0..len`.
pub open spec fn is_perm(tk: Seq<u8>) -> bool {
    &&& forall|c: int| 0 <= c < tk.len() ==> (tk[c] as int) < tk.len()
    &&& forall|r: int|
        0 <= r < tk.len() ==> 0 <= #[trigger] rank_pos(tk, r) < tk.len() && (tk[rank_pos(
            tk,
            r,
        )] as int) == r
    &&& forall|c1: int, c2: int| 0 <= c1 < c2 < tk.len() ==> tk[c1] != tk[c2]
}

/// The rank sequence of any key of at most 256 bytes is a permutation.
pub proof fn lemma_spec_rank_is_perm(s: Seq<u8>)
    requires
        s.len() <= 256,
    ensures
        is_perm(spec_rank(s)),
{
    let tk = spec_rank(s);
    assert forall|c: int| 0 <= c < tk.len() implies (tk[c] as int) < tk.len() by {
        helpers::lemma_rank_bound(s, c);
    }
    assert forall|r: int| 0 <= r < tk.len() implies 0 <= #[trigger] rank_pos(tk, r) < tk.len()
        && (tk[rank_pos(tk, r)] as int) == r by {
        helpers::lemma_rank_surjective(s, r);
        let c = choose|c: int| 0 <= c < s.len() && rank_at(s, c) == r;
        helpers::lemma_rank_bound(s, c);
        assert(0 <= c < tk.len() && (tk[c] as int) == r);
        let c0 = rank_pos(tk, r);
        assert(0 <= c0 < tk.len() && (tk[c0] as int) == r);
    }
    assert forall|c1: int, c2: int| 0 <= c1 < c2 < tk.len() implies tk[c1] != tk[c2] by {
        helpers::lemma_rank_injective(s, c1, c2);
        helpers::lemma_rank_bound(s, c1);
        helpers::lemma_rank_bound(s, c2);
    }
}

/// For a permutation, `rank_pos` is the unique inverse.
pub proof fn lemma_rank_pos(tk: Seq<u8>, r: int)
    requires
        is_perm(tk),
        0 <= r < tk.len(),
    ensures
        0 <= rank_pos(tk, r) < tk.len(),
        tk[rank_pos(tk, r)] as int == r,
        forall|c: int| 0 <= c < tk.len() && (tk[c] as int) == r ==> c == rank_pos(tk, r),
{
    let c0 = rank_pos(tk, r);
    assert(0 <= c0 < tk.len() && (tk[c0] as int) == r);
    assert forall|c: int| 0 <= c < tk.len() && (tk[c] as int) == r implies c == c0 by {
        if c != c0 {
            if c < c0 {
                assert(tk[c] != tk[c0]);
            } else {
                assert(tk[c0] != tk[c]);
            }
        }
    }
}

/// Number of populated cells in column `c` of a grid with `klen` columns
/// filled row-major by `len` bytes.
pub open spec fn col_count(len: int, klen: int, c: int) -> int {
    if klen <= 0 || c < 0 || c >= klen || len <= c {
        0
    } else {
        (len - c - 1) / klen + 1
    }
}

/// Cell `(k, c)` is populated exactly when `k` is below the column count.
pub proof fn lemma_col_cell(len: int, klen: int, c: int, k: int)
    requires
        klen >= 1,
        0 <= c < klen,
        0 <= k,
        0 <= len,
    ensures
        (c + k * klen < len) <==> (k < col_count(len, klen, c)),
{
    vstd::arithmetic::mul::lemma_mul_nonnegative(k, klen);
    if len <= c {
    } else {
        vstd::arithmetic::div_mod::lemma_fundamental_div_mod(len - c - 1, klen);
        vstd::arithmetic::div_mod::lemma_mod_bound(len - c - 1, klen);
        let q = (len - c - 1) / klen;
        let m = (len - c - 1) % klen;
        vstd::arithmetic::div_mod::lemma_div_pos_is_pos(len - c - 1, klen);
        if k <= q {
            vstd::arithmetic::mul::lemma_mul_inequality(k, q, klen);
        } else {
            vstd::arithmetic::mul::lemma_mul_inequality(q + 1, k, klen);
            assert((q + 1) * klen == q * klen + klen) by (nonlinear_arith);
        }
        assert(klen * q == q * klen) by (nonlinear_arith);
    }
}

/// Column counts are never negative.
pub proof fn lemma_col_count_nonneg(len: int, klen: int, c: int)
    ensures
        col_count(len, klen, c) >= 0,
{
    if klen >= 1 && 0 <= c && c < klen && len > c {
        vstd::arithmetic::div_mod::lemma_div_pos_is_pos(len - c - 1, klen);
    }
}

/// Splitting `len` into full rows and a short last row gives each column's
/// count: columns before the break point get one extra cell.
pub proof fn lemma_col_count_by_mod(len: int, klen: int, c: int)
    requires
        klen >= 1,
        0 <= c < klen,
        0 <= len,
    ensures
        col_count(len, klen, c) == if c < len % klen {
            len / klen + 1
        } else {
            len / klen
        },
{
    vstd::arithmetic::div_mod::lemma_fundamental_div_mod(len, klen);
    vstd::arithmetic::div_mod::lemma_mod_bound(len, klen);
    vstd::arithmetic::div_mod::lemma_div_pos_is_pos(len, klen);
    let q = len / klen;
    let e = len % klen;
    assert(klen * q == q * klen) by (nonlinear_arith);
    lemma_col_count_nonneg(len, klen, c);
    if c < e {
        lemma_col_cell(len, klen, c, q);
        lemma_col_cell(len, klen, c, q + 1);
        assert((q + 1) * klen == q * klen + klen) by (nonlinear_arith);
    } else {
        lemma_col_cell(len, klen, c, q);
        if q >= 1 {
            lemma_col_cell(len, klen, c, q - 1);
            assert((q - 1) * klen == q * klen - klen) by (nonlinear_arith);
        }
    }
}

/// The populated cells of all columns together make up the whole source:
/// `count_mod` counts positions by their column.
pub open spec fn count_mod(len: int, klen: int, c: int) -> int
    decreases len,
{
    if len <= 0 || klen <= 0 {
        0
    } else {
        count_mod(len - 1, klen, c) + if (len - 1) % klen == c {
            1int
        } else {
            0int
        }
    }
}

proof fn lemma_count_mod_is_col_count(len: int, klen: int, c: int)
    requires
        klen >= 1,
        0 <= c < klen,
        0 <= len,
    ensures
        count_mod(len, klen, c) == col_count(len, klen, c),
    decreases len,
{
    lemma_col_count_nonneg(len, klen, c);
    lemma_col_count_nonneg(len - 1, klen, c);
    if len > 0 {
        lemma_count_mod_is_col_count(len - 1, klen, c);
        if (len - 1) % klen == c {
            vstd::arithmetic::div_mod::lemma_fundamental_div_mod(len - 1, klen);
            let k = (len - 1) / klen;
            vstd::arithmetic::div_mod::lemma_div_pos_is_pos(len - 1, klen);
            assert(klen * k == k * klen) by (nonlinear_arith);
            assert(c + k * klen == len - 1);
            lemma_col_cell(len - 1, klen, c, k);
            if k >= 1 {
                assert((k - 1) * klen == k * klen - klen) by (nonlinear_arith);
                lemma_col_cell(len - 1, klen, c, k - 1);
            }
            assert(col_count(len - 1, klen, c) == k);
            lemma_col_cell(len, klen, c, k);
            lemma_col_cell(len, klen, c, k + 1);
            assert((k + 1) * klen == k * klen + klen) by (nonlinear_arith);
            assert(col_count(len, klen, c) == k + 1);
        } else {
            let cc = col_count(len, klen, c);
            let ccp = col_count(len - 1, klen, c);
            assert forall|k: int| 0 <= k implies ((c + #[trigger] (k * klen) < len) <==> (c + k
                * klen < len - 1)) by {
                if c + k * klen == len - 1 {
                    vstd::arithmetic::div_mod::lemma_fundamental_div_mod_converse(
                        len - 1,
                        klen,
                        k,
                        c,
                    );
                }
            }
            lemma_col_cell(len - 1, klen, c, cc);
            lemma_col_cell(len, klen, c, cc);
            lemma_col_cell(len - 1, klen, c, ccp);
            lemma_col_cell(len, klen, c, ccp);
        }
    }
}

/// Number of positions below `len` whose column's rank is below `j`.
pub open spec fn count_rank_lt(len: int, klen: int, tk: Seq<u8>, j: int) -> int
    decreases len,
{
    if len <= 0 || klen <= 0 {
        0
    } else {
        count_rank_lt(len - 1, klen, tk, j) + if (tk[(len - 1) % klen] as int) < j {
            1int
        } else {
            0int
        }
    }
}

proof fn lemma_count_rank_none(len: int, klen: int, tk: Seq<u8>, j: int)
    requires
        j <= 0,
    ensures
        count_rank_lt(len, klen, tk, j) == 0,
    decreases len,
{
    if len > 0 && klen > 0 {
        lemma_count_rank_none(len - 1, klen, tk, j);
    }
}

proof fn lemma_count_rank_all(len: int, klen: int, tk: Seq<u8>, j: int)
    requires
        klen >= 1,
        klen == tk.len(),
        0 <= len,
        forall|c: int| 0 <= c < tk.len() ==> (tk[c] as int) < j,
    ensures
        count_rank_lt(len, klen, tk, j) == len,
    decreases len,
{
    if len > 0 {
        lemma_count_rank_all(len - 1, klen, tk, j);
        assert(0 <= (len - 1) % klen < klen) by (nonlinear_arith)
            requires
                klen >= 1,
                len >= 1,
        ;
    }
}

proof fn lemma_count_rank_step(len: int, klen: int, tk: Seq<u8>, j: int)
    requires
        klen >= 1,
        klen == tk.len(),
        is_perm(tk),
        0 <= j < klen,
        0 <= len,
    ensures
        count_rank_lt(len, klen, tk, j + 1) == count_rank_lt(len, klen, tk, j) + count_mod(
            len,
            klen,
            rank_pos(tk, j),
        ),
    decreases len,
{
    lemma_rank_pos(tk, j);
    if len > 0 {
        lemma_count_rank_step(len - 1, klen, tk, j);
        assert(0 <= (len - 1) % klen < klen) by (nonlinear_arith)
            requires
                klen >= 1,
                len >= 1,
        ;
        let c = (len - 1) % klen;
        assert(((tk[c] as int) == j) <==> (c == rank_pos(tk, j)));
    }
}

/// Start offset, in the read-out ciphertext, of the column with rank `j`.
pub open spec fn col_start(len: int, klen: int, tk: Seq<u8>, j: int) -> int
    decreases j,
{
    if j <= 0 {
        0
    } else {
        col_start(len, klen, tk, j - 1) + col_count(len, klen, rank_pos(tk, j - 1))
    }
}

/// The column start offsets follow the per-position counts, so all columns
/// together cover the source exactly.
pub proof fn lemma_col_start(len: int, klen: int, tk: Seq<u8>, j: int)
    requires
        klen >= 1,
        klen == tk.len(),
        is_perm(tk),
        0 <= j <= klen,
        0 <= len,
    ensures
        col_start(len, klen, tk, j) == count_rank_lt(len, klen, tk, j),
    decreases j,
{
    if j <= 0 {
        lemma_count_rank_none(len, klen, tk, j);
    } else {
        lemma_col_start(len, klen, tk, j - 1);
        lemma_count_rank_step(len, klen, tk, j - 1);
        lemma_rank_pos(tk, j - 1);
        lemma_count_mod_is_col_count(len, klen, rank_pos(tk, j - 1));
        assert(col_start(len, klen, tk, j) == col_start(len, klen, tk, j - 1) + col_count(
            len,
            klen,
            rank_pos(tk, j - 1),
        ));
        assert(count_rank_lt(len, klen, tk, (j - 1) + 1) == count_rank_lt(len, klen, tk, j - 1)
            + count_mod(len, klen, rank_pos(tk, j - 1)));
        assert(count_rank_lt(len, klen, tk, (j - 1) + 1) == count_rank_lt(len, klen, tk, j));
    }
}

/// All columns together hold the whole source.
pub proof fn lemma_col_start_total(len: int, klen: int, tk: Seq<u8>)
    requires
        klen >= 1,
        klen == tk.len(),
        is_perm(tk),
        0 <= len,
    ensures
        col_start(len, klen, tk, klen as int) == len,
        forall|j: int|
            0 <= j <= klen ==> 0 <= #[trigger] col_start(len, klen, tk, j) <= len,
        forall|j: int|
            0 <= j < klen ==> col_start(len, klen, tk, j) + col_count(
                len,
                klen,
                rank_pos(tk, j),
            ) == col_start(len, klen, tk, j + 1),
{
    lemma_col_start(len, klen, tk, klen as int);
    lemma_count_rank_all(len, klen, tk, klen as int);
    assert forall|j: int| 0 <= j <= klen implies 0 <= #[trigger] col_start(len, klen, tk, j)
        <= len by {
        lemma_col_start_bounds(len, klen, tk, j, klen as int);
    }
}

proof fn lemma_col_start_bounds(len: int, klen: int, tk: Seq<u8>, j: int, hi: int)
    requires
        klen >= 1,
        klen == tk.len(),
        is_perm(tk),
        0 <= j <= hi <= klen,
        0 <= len,
        col_start(len, klen, tk, hi) <= len,
    ensures
        0 <= col_start(len, klen, tk, j) <= len,
    decreases hi - j,
{
    lemma_col_start_nonneg(len, klen, tk, j);
    if j < hi {
        lemma_rank_pos(tk, hi - 1);
        lemma_col_start_bounds(len, klen, tk, j, hi - 1);
    }
}

proof fn lemma_col_start_nonneg(len: int, klen: int, tk: Seq<u8>, j: int)
    ensures
        col_start(len, klen, tk, j) >= 0,
    decreases j,
{
    if j > 0 {
        lemma_col_start_nonneg(len, klen, tk, j - 1);
    }
}

/// The populated cells of column `c`, read top to bottom.
pub open spec fn col_seq(src: Seq<u8>, klen: int, c: int) -> Seq<u8> {
    Seq::new(
        col_count(src.len() as int, klen, c) as nat,
        |k: int| src[c + k * klen],
    )
}

/// The ciphertext tail produced by the columns with rank `j` and above.
pub open spec fn enc_from(src: Seq<u8>, tk: Seq<u8>, j: int) -> Seq<u8>
    decreases tk.len() - j,
{
    if j < 0 || j >= tk.len() {
        Seq::empty()
    } else {
        col_seq(src, tk.len() as int, rank_pos(tk, j)) + enc_from(src, tk, j + 1)
    }
}

/// The regular columnar transposition of a source: columns of the grid read
/// out in rank order.
pub open spec fn spec_trans_enc(tk: Seq<u8>, src: Seq<u8>) -> Seq<u8> {
    enc_from(src, tk, 0)
}

/// The inverse distribution: the byte at grid position `p` comes from the
/// ciphertext run of the column holding `p`, at `p`'s row.
pub open spec fn spec_trans_dec(tk: Seq<u8>, src: Seq<u8>) -> Seq<u8> {
    let klen = tk.len() as int;
    Seq::new(
        src.len(),
        |p: int|
            src[col_start(src.len() as int, klen, tk, tk[p % klen] as int) + p / klen],
    )
}

proof fn lemma_enc_from_len(src: Seq<u8>, tk: Seq<u8>, j: int)
    requires
        tk.len() >= 1,
        is_perm(tk),
        0 <= j <= tk.len(),
    ensures
        enc_from(src, tk, j).len() == col_start(src.len() as int, tk.len() as int, tk, tk.len() as int)
            - col_start(src.len() as int, tk.len() as int, tk, j),
    decreases tk.len() - j,
{
    let len = src.len() as int;
    let klen = tk.len() as int;
    if j < klen {
        lemma_enc_from_len(src, tk, j + 1);
        lemma_rank_pos(tk, j);
    }
}

/// The ciphertext of the regular transposition has the length of the source.
pub proof fn lemma_trans_enc_len(tk: Seq<u8>, src: Seq<u8>)
    requires
        tk.len() >= 1,
        is_perm(tk),
    ensures
        spec_trans_enc(tk, src).len() == src.len(),
{
    lemma_enc_from_len(src, tk, 0);
    lemma_col_start_total(src.len() as int, tk.len() as int, tk);
}

/// Indexing into the read-out ciphertext: position `col_start(j) + k` holds
/// row `k` of the column with rank `j`.
pub proof fn lemma_enc_index(src: Seq<u8>, tk: Seq<u8>, j: int, k: int)
    requires
        tk.len() >= 1,
        is_perm(tk),
        0 <= j < tk.len(),
        0 <= k < col_count(src.len() as int, tk.len() as int, rank_pos(tk, j)),
    ensures
        0 <= col_start(src.len() as int, tk.len() as int, tk, j) + k < src.len(),
        spec_trans_enc(tk, src)[col_start(src.len() as int, tk.len() as int, tk, j) + k]
            == src[rank_pos(tk, j) + k * tk.len()],
{
    let len = src.len() as int;
    let klen = tk.len() as int;
    lemma_col_start_total(len, klen, tk);
    lemma_rank_pos(tk, j);
    lemma_col_cell(len, klen, rank_pos(tk, j), k);
    lemma_enc_index_rec(src, tk, 0, j, k);
    lemma_enc_from_len(src, tk, j);
}

#[verifier::rlimit(100)]
#[verifier::spinoff_prover]
proof fn lemma_enc_index_rec(src: Seq<u8>, tk: Seq<u8>, j0: int, j: int, k: int)
    requires
        tk.len() >= 1,
        is_perm(tk),
        0 <= j0 <= j < tk.len(),
        0 <= k < col_count(src.len() as int, tk.len() as int, rank_pos(tk, j)),
    ensures
        enc_from(src, tk, j0)[col_start(src.len() as int, tk.len() as int, tk, j)
            - col_start(src.len() as int, tk.len() as int, tk, j0) + k]
            == src[rank_pos(tk, j) + k * tk.len()],
    decreases j - j0,
{
    let len = src.len() as int;
    let klen = tk.len() as int;
    lemma_rank_pos(tk, j0);
    lemma_enc_from_len(src, tk, j0 + 1);
    let e1 = enc_from(src, tk, j0 + 1);
    let cs = col_seq(src, klen, rank_pos(tk, j0));
    let cc = col_count(len, klen, rank_pos(tk, j0));
    assert(enc_from(src, tk, j0) == cs + e1);
    assert(cs.len() == cc);
    if j0 == j {
        assert(cs[k] == src[rank_pos(tk, j) + k * klen]);
        assert((cs + e1)[k] == cs[k]);
    } else {
        lemma_enc_index_rec(src, tk, j0 + 1, j, k);
        let idx = col_start(len, klen, tk, j) - col_start(len, klen, tk, j0) + k;
        assert(col_start(len, klen, tk, j0 + 1) == col_start(len, klen, tk, j0) + cc);
        lemma_col_start_mono(len, klen, tk, j0 + 1, j);
        assert(idx - cc >= 0);
        lemma_rank_pos(tk, j);
        lemma_col_cell(len, klen, rank_pos(tk, j), k);
        assert(col_start(len, klen, tk, j + 1) == col_start(len, klen, tk, j) + col_count(
            len,
            klen,
            rank_pos(tk, j),
        ));
        lemma_col_start_mono(len, klen, tk, j + 1, klen);
        lemma_col_start_total(len, klen, tk);
        assert(col_start(len, klen, tk, j) + k < col_start(len, klen, tk, klen));
        assert(idx - cc < e1.len());
        assert((cs + e1)[idx] == e1[idx - cc]);
    }
}

/// Column start offsets grow with the rank.
pub open spec fn col_start_mono(len: int, klen: int, tk: Seq<u8>, a: int, b: int) -> bool {
    col_start(len, klen, tk, a) <= col_start(len, klen, tk, b)
}

pub proof fn lemma_col_start_mono(len: int, klen: int, tk: Seq<u8>, a: int, b: int)
    requires
        klen >= 1,
        klen == tk.len(),
        is_perm(tk),
        0 <= a <= b <= klen,
        0 <= len,
    ensures
        col_start_mono(len, klen, tk, a, b),
    decreases b - a,
{
    if a < b {
        lemma_col_start_mono(len, klen, tk, a + 1, b);
        lemma_rank_pos(tk, a);
    }
}

} // verus!
verus! {

/// After all cells of the column with rank `jj` are written, every
/// position whose rank is at most `jj` holds its final byte.
#[verifier::spinoff_prover]
proof fn lemma_dec_merge_rank(
    tk: Seq<u8>,
    len: int,
    klen: int,
    jj: int,
    ind: int,
    dstv: Seq<u8>,
    out: Seq<u8>,
)
    requires
        klen >= 1,
        klen == tk.len(),
        is_perm(tk),
        0 <= jj < klen,
        ind == rank_pos(tk, jj),
        0 <= len <= dstv.len(),
        out.len() == len,
        forall|p: int| 0 <= p < len && (tk[p % klen] as int) < jj ==> dstv[p] == out[p],
        forall|p: int|
            0 <= p < len && (tk[p % klen] as int) == jj && p % klen == ind && p / klen
                < col_count(len, klen, ind) ==> dstv[p] == out[p],
    ensures
        forall|p: int| 0 <= p < len && (tk[p % klen] as int) < jj + 1 ==> dstv[p] == out[p],
{
    lemma_rank_pos(tk, jj);
    assert forall|p: int| 0 <= p < len && (tk[p % klen] as int) < jj + 1 implies dstv[p]
        == out[p] by {
        if (tk[p % klen] as int) == jj {
            let c = p % klen;
            vstd::arithmetic::div_mod::lemma_mod_bound(p, klen);
            assert(c == ind);
            vstd::arithmetic::div_mod::lemma_fundamental_div_mod(p, klen);
            vstd::arithmetic::div_mod::lemma_div_pos_is_pos(p, klen);
            vstd::arithmetic::mul::lemma_mul_is_commutative(klen, p / klen);
            lemma_col_cell(len, klen, ind, p / klen);
        }
    }
}

/// Decrypting an encrypted buffer restores it: the regular columnar
/// transposition stages are inverses for every permutation key and every
/// source.
pub proof fn lemma_trans_round_trip(tk: Seq<u8>, src: Seq<u8>)
    requires
        tk.len() >= 1,
        is_perm(tk),
    ensures
        spec_trans_dec(tk, spec_trans_enc(tk, src)) == src,
{
    let len = src.len() as int;
    let klen = tk.len() as int;
    let y = spec_trans_enc(tk, src);
    lemma_trans_enc_len(tk, src);
    let d = spec_trans_dec(tk, y);
    assert forall|p: int| 0 <= p < len implies d[p] == src[p] by {
        vstd::arithmetic::div_mod::lemma_mod_bound(p, klen);
        vstd::arithmetic::div_mod::lemma_fundamental_div_mod(p, klen);
        vstd::arithmetic::div_mod::lemma_div_pos_is_pos(p, klen);
        vstd::arithmetic::mul::lemma_mul_is_commutative(klen, p / klen);
        let c = p % klen;
        let k = p / klen;
        let j = tk[c] as int;
        lemma_rank_pos(tk, j);
        assert(rank_pos(tk, j) == c);
        lemma_col_cell(len, klen, c, k);
        lemma_enc_index(src, tk, j, k);
        assert(d[p] == y[col_start(len, klen, tk, j) + k]);
    }
    assert(d =~= src);
}

/// Finds the column whose rank is `r`: the first index of `r` in `tkey`.
fn find_rank(tkey: &Vec<u8>, r: u8) -> (c: usize)
    requires
        exists|j: int| 0 <= j < tkey@.len() && tkey@[j] == r,
    ensures
        c < tkey@.len(),
        tkey@[c as int] == r,
{
    let n: usize = tkey.len();
    let mut i: usize = 0;
    while i < n
        invariant
            n == tkey@.len(),
            i <= n,
            exists|j: int| 0 <= j < tkey@.len() && tkey@[j] == r,
            forall|j: int| 0 <= j < i ==> tkey@[j] != r,
        decreases n - i,
    {
        if tkey[i] == r {
            return i;
        }
        i = i + 1;
    }
    proof {
        assert(false);
    }
    0
}

/// A regular columnar transposition cipher keyed by a rank sequence.
pub struct Transposition {
    key: String,
    tkey: Vec<u8>,
}

impl View for Transposition {
    type V = Seq<u8>;

    /// The cipher is modelled by its rank sequence.
    closed spec fn view(&self) -> Seq<u8> {
        self.tkey@
    }
}

impl Transposition {
    /// Creates a new regular columnar transposition cipher; the key must
    /// not be empty.
    pub fn new(key: &str) -> (r: Result<Self, String>)
        requires
            key.spec_bytes().len() <= 256,
        ensures
            match r {
                Ok(c) => key.spec_bytes().len() > 0 && c.wf() && c@ == spec_rank(
                    key.spec_bytes(),
                ),
                Err(_) => key.spec_bytes().len() == 0,
            },
    {
        if key.len() == 0 {
            return Err("key can not be empty".to_owned());
        }
        proof {
            lemma_spec_rank_is_perm(key.spec_bytes());
        }
        Ok(Transposition { key: key.to_owned(), tkey: helpers::to_numeric(key) })
    }
}

impl Transposition {
    /// The rank sequence the cipher permutes by.
    pub fn rank_sequence(&self) -> (r: Vec<u8>)
        ensures
            r@ == self@,
    {
        let mut r: Vec<u8> = Vec::new();
        r.extend_from_slice(self.tkey.as_slice());
        proof {
            assert(r@ =~= self@);
        }
        r
    }

    /// Creates a regular transposition directly from a derived key given
    /// as bytes.
    pub(crate) fn new_from_bytes(keyb: &[u8]) -> (c: Self)
        requires
            1 <= keyb@.len() <= 256,
        ensures
            c.wf(),
            c@ == spec_rank(keyb@),
    {
        proof {
            lemma_spec_rank_is_perm(keyb@);
        }
        Transposition { key: String::new(), tkey: helpers::rank_bytes(keyb) }
    }
}

impl Block for Transposition {
    open spec fn wf(&self) -> bool {
        &&& 1 <= self@.len() <= 256
        &&& is_perm(self@)
    }

    open spec fn spec_block_size(&self) -> int {
        self@.len() as int
    }

    open spec fn enc_ok(&self, src: Seq<u8>) -> bool {
        true
    }

    open spec fn dec_ok(&self, src: Seq<u8>) -> bool {
        true
    }

    open spec fn spec_enc(&self, src: Seq<u8>) -> Seq<u8> {
        spec_trans_enc(self@, src)
    }

    open spec fn spec_dec(&self, src: Seq<u8>) -> Seq<u8> {
        spec_trans_dec(self@, src)
    }

    fn block_size(&self) -> (n: usize) {
        self.tkey.len()
    }

    fn encrypt(&self, dst: &mut Vec<u8>, src: &[u8]) -> (n: usize) {
        let klen: usize = self.tkey.len();
        let len: usize = src.len();
        let ghost tk = self.tkey@;
        let ghost out = spec_trans_enc(tk, src@);
        proof {
            lemma_trans_enc_len(tk, src@);
            lemma_col_start_total(len as int, klen as int, tk);
            vstd::arithmetic::div_mod::lemma_fundamental_div_mod(len as int, klen as int);
            vstd::arithmetic::div_mod::lemma_mod_bound(len as int, klen as int);
            vstd::arithmetic::div_mod::lemma_div_pos_is_pos(len as int, klen as int);
            vstd::arithmetic::mul::lemma_mul_inequality(1, klen as int, len as int / klen as int);
        }
        let scol: usize = len / klen;
        let extra: usize = len % klen;
        let mut offset: usize = 0;
        let mut i: usize = 0;
        while i < klen
            invariant
                tk == self.tkey@,
                klen == tk.len(),
                1 <= klen <= 256,
                is_perm(tk),
                len == src@.len(),
                out == spec_trans_enc(tk, src@),
                out.len() == len,
                dst@.len() >= len,
                scol == len as int / klen as int,
                extra == len as int % klen as int,
                extra > 0 ==> scol < len,
                i <= klen,
                offset == col_start(len as int, klen as int, tk, i as int),
                offset <= len,
                dst@.len() == old(dst)@.len(),
                forall|q: int| 0 <= q < offset ==> dst@[q] == out[q],
                forall|q: int| offset <= q < dst@.len() ==> dst@[q] == old(dst)@[q],
            decreases klen - i,
        {
            proof {
                lemma_rank_pos(tk, i as int);
            }
            let j: usize = find_rank(&self.tkey, i as u8);
            proof {
                lemma_rank_pos(tk, i as int);
                assert(j as int == rank_pos(tk, i as int));
                lemma_col_start_total(len as int, klen as int, tk);
                lemma_col_start_mono(len as int, klen as int, tk, i as int + 1, klen as int);
                lemma_col_count_by_mod(len as int, klen as int, j as int);
            }
            let how_many: usize = if j < extra {
                scol + 1
            } else {
                scol
            };
            let ghost cc = col_count(len as int, klen as int, j as int);
            let mut k: usize = 0;
            while k < how_many
                invariant
                    tk == self.tkey@,
                    klen == tk.len(),
                    1 <= klen <= 256,
                    is_perm(tk),
                    len == src@.len(),
                    out == spec_trans_enc(tk, src@),
                    out.len() == len,
                    dst@.len() >= len,
                    i < klen,
                    j as int == rank_pos(tk, i as int),
                    j < klen,
                    cc == col_count(len as int, klen as int, j as int),
                    how_many == cc,
                    col_start(len as int, klen as int, tk, i as int) + cc == col_start(
                        len as int,
                        klen as int,
                        tk,
                        i as int + 1,
                    ),
                    col_start(len as int, klen as int, tk, i as int + 1) <= len,
                    k <= cc,
                    offset == col_start(len as int, klen as int, tk, i as int) + k,
                    dst@.len() == old(dst)@.len(),
                    forall|q: int| 0 <= q < offset ==> dst@[q] == out[q],
                    forall|q: int| offset <= q < dst@.len() ==> dst@[q] == old(dst)@[q],
                decreases how_many - k,
            {
                proof {
                    lemma_col_cell(len as int, klen as int, j as int, k as int);
                    lemma_enc_index(src@, tk, i as int, k as int);
                }
                let curr: usize = j + k * klen;
                dst[offset] = src[curr];
                offset = offset + 1;
                k = k + 1;
            }
            i = i + 1;
        }
        proof {
            assert(dst@.subrange(0, len as int) =~= out);
            assert(dst@.skip(len as int) =~= old(dst)@.skip(len as int));
        }
        len
    }

    #[verifier::rlimit(100)]
    fn decrypt(&self, dst: &mut Vec<u8>, src: &[u8]) -> (n: usize) {
        let klen: usize = self.tkey.len();
        let len: usize = src.len();
        let ghost tk = self.tkey@;
        let ghost out = spec_trans_dec(tk, src@);
        proof {
            lemma_col_start_total(len as int, klen as int, tk);
            vstd::arithmetic::div_mod::lemma_fundamental_div_mod(len as int, klen as int);
            vstd::arithmetic::div_mod::lemma_mod_bound(len as int, klen as int);
            vstd::arithmetic::div_mod::lemma_div_pos_is_pos(len as int, klen as int);
            vstd::arithmetic::mul::lemma_mul_inequality(1, klen as int, len as int / klen as int);
        }
        let scol: usize = len / klen;
        let extra: usize = len % klen;
        let mut current: usize = 0;
        let mut jj: usize = 0;
        while jj < klen
            invariant
                tk == self.tkey@,
                klen == tk.len(),
                1 <= klen <= 256,
                is_perm(tk),
                len == src@.len(),
                out == spec_trans_dec(tk, src@),
                out.len() == len,
                dst@.len() >= len,
                scol == len as int / klen as int,
                extra == len as int % klen as int,
                extra > 0 ==> scol < len,
                jj <= klen,
                current == col_start(len as int, klen as int, tk, jj as int),
                current <= len,
                dst@.len() == old(dst)@.len(),
                forall|p: int|
                    0 <= p < len && (tk[p % (klen as int)] as int) < jj ==> dst@[p] == out[p],
                forall|p: int|
                    0 <= p < len && (tk[p % (klen as int)] as int) >= jj ==> dst@[p] == old(
                        dst,
                    )@[p],
                forall|p: int| len <= p < dst@.len() ==> dst@[p] == old(dst)@[p],
            decreases klen - jj,
        {
            proof {
                lemma_rank_pos(tk, jj as int);
            }
            let ind: usize = find_rank(&self.tkey, jj as u8);
            proof {
                lemma_rank_pos(tk, jj as int);
                assert(ind as int == rank_pos(tk, jj as int));
                lemma_col_start_total(len as int, klen as int, tk);
                lemma_col_start_mono(len as int, klen as int, tk, jj as int + 1, klen as int);
                lemma_col_count_by_mod(len as int, klen as int, ind as int);
            }
            let how_many: usize = if ind < extra {
                scol + 1
            } else {
                scol
            };
            let mut k: usize = 0;
            while k < how_many
                invariant
                    tk == self.tkey@,
                    klen == tk.len(),
                    1 <= klen <= 256,
                    is_perm(tk),
                    len == src@.len(),
                    out == spec_trans_dec(tk, src@),
                    out.len() == len,
                    dst@.len() >= len,
                    jj < klen,
                    ind as int == rank_pos(tk, jj as int),
                    ind < klen,
                    how_many == col_count(len as int, klen as int, ind as int),
                    col_start(len as int, klen as int, tk, jj as int) + how_many == col_start(
                        len as int,
                        klen as int,
                        tk,
                        jj as int + 1,
                    ),
                    col_start(len as int, klen as int, tk, jj as int + 1) <= len,
                    current == col_start(len as int, klen as int, tk, jj as int),
                    k <= how_many,
                    dst@.len() == old(dst)@.len(),
                    forall|p: int|
                        0 <= p < len && (tk[p % (klen as int)] as int) < jj ==> dst@[p] == out[p],
                    forall|p: int|
                        0 <= p < len && (tk[p % (klen as int)] as int) == jj && p % (klen as int)
                            == ind && p / (klen as int) < k ==> dst@[p] == out[p],
                    forall|p: int|
                        0 <= p < len && (tk[p % (klen as int)] as int) > jj ==> dst@[p] == old(
                            dst,
                        )@[p],
                    forall|p: int|
                        0 <= p < len && (tk[p % (klen as int)] as int) == jj && p / (klen as int)
                            >= k ==> dst@[p] == old(dst)@[p],
                    forall|p: int| len <= p < dst@.len() ==> dst@[p] == old(dst)@[p],
                decreases how_many - k,
            {
                proof {
                    lemma_col_cell(len as int, klen as int, ind as int, k as int);
                }
                let dst_idx: usize = ind + k * klen;
                proof {
                    assert(dst_idx < len);
                    vstd::arithmetic::div_mod::lemma_fundamental_div_mod_converse(
                        dst_idx as int,
                        klen as int,
                        k as int,
                        ind as int,
                    );
                    assert(out[dst_idx as int] == src@[current as int + k]);
                }
                dst[dst_idx] = src[current + k];
                proof {
                    assert forall|p: int|
                        0 <= p < len && (tk[p % (klen as int)] as int) == jj && p % (klen as int)
                            == ind && p / (klen as int) < k + 1 implies dst@[p] == out[p] by {
                        if p / (klen as int) >= k {
                            vstd::arithmetic::div_mod::lemma_fundamental_div_mod(
                                p,
                                klen as int,
                            );
                            vstd::arithmetic::mul::lemma_mul_is_commutative(
                                klen as int,
                                k as int,
                            );
                            assert(p == dst_idx as int);
                        }
                    }
                }
                k = k + 1;
            }
            proof {
                lemma_dec_merge_rank(tk, len as int, klen as int, jj as int, ind as int, dst@, out);
            }
            current = current + how_many;
            jj = jj + 1;
        }
        proof {
            assert forall|p: int| 0 <= p < len implies dst@[p] == out[p] by {
                vstd::arithmetic::div_mod::lemma_mod_bound(p, klen as int);
            }
            assert(dst@.subrange(0, len as int) =~= out);
            assert(dst@.skip(len as int) =~= old(dst)@.skip(len as int));
        }
        len
    }
}

} // verus!
// The irregular (triangular) transposition.  Two triangular regions,
// anchored at the columns holding ranks 0 and 1 and widening by one column
// per row, are filled only after every other cell.  The model below gives
// each cell of the `rows x klen` grid a fill position (its index in the
// two-phase writing order) and an output position (its index in the
// rank-ordered column read-out); a cell is active when its fill position
// falls inside the source.
verus! {

/// Number of grid rows for a source of `len` bytes.
pub open spec fn n_rows(len: int, klen: int) -> int {
    if klen <= 0 {
        0
    } else {
        (len + klen - 1) / klen
    }
}

/// Whether the cell with row-major index `p` lies in one of the two
/// triangular regions.
pub open spec fn tri_at(tk: Seq<u8>, p: int) -> bool {
    let klen = tk.len() as int;
    if klen <= 0 {
        false
    } else {
        let r = p / klen;
        let c = p % klen;
        c >= rank_pos(tk, 0) + r || (klen >= 2 && c >= rank_pos(tk, 1) + r)
    }
}

/// Number of cells before `p` whose triangular membership equals `m`.
pub open spec fn tri_count(tk: Seq<u8>, p: int, m: bool) -> int
    decreases p,
{
    if p <= 0 {
        0
    } else {
        tri_count(tk, p - 1, m) + if tri_at(tk, p - 1) == m {
            1int
        } else {
            0int
        }
    }
}

/// The fill position of cell `p`: non-triangular cells are written first in
/// row-major order, then the triangular cells in row-major order.
pub open spec fn fill_pos(tk: Seq<u8>, cells: int, p: int) -> int {
    if tri_at(tk, p) {
        tri_count(tk, cells, false) + tri_count(tk, p, true)
    } else {
        tri_count(tk, p, false)
    }
}

/// A cell is active when its fill position lies inside the source.
pub open spec fn is_active(tk: Seq<u8>, cells: int, len: int, p: int) -> bool {
    fill_pos(tk, cells, p) < len
}

/// Number of active cells in column `c` on rows below `r`.
pub open spec fn act_rows(tk: Seq<u8>, rows: int, len: int, c: int, r: int) -> int
    decreases r,
{
    if r <= 0 {
        0
    } else {
        act_rows(tk, rows, len, c, r - 1) + if is_active(
            tk,
            rows * tk.len(),
            len,
            (r - 1) * tk.len() + c,
        ) {
            1int
        } else {
            0int
        }
    }
}

/// Start offset, in the read-out ciphertext, of the column with rank `j`.
pub open spec fn act_col_start(tk: Seq<u8>, rows: int, len: int, j: int) -> int
    decreases j,
{
    if j <= 0 {
        0
    } else {
        act_col_start(tk, rows, len, j - 1) + act_rows(tk, rows, len, rank_pos(tk, j - 1), rows)
    }
}

/// The output position of active cell `p` in the rank-ordered read-out.
pub open spec fn out_pos(tk: Seq<u8>, rows: int, len: int, p: int) -> int {
    let klen = tk.len() as int;
    act_col_start(tk, rows, len, tk[p % klen] as int) + act_rows(
        tk,
        rows,
        len,
        p % klen,
        p / klen,
    )
}

/// The active cells of column `c` from row `r` down, as source bytes.
pub open spec fn col_collect(src: Seq<u8>, tk: Seq<u8>, rows: int, c: int, r: int) -> Seq<u8>
    decreases rows - r,
{
    if r < 0 || r >= rows {
        Seq::empty()
    } else {
        (if is_active(tk, rows * tk.len(), src.len() as int, r * tk.len() + c) {
            seq![src[fill_pos(tk, rows * tk.len(), r * tk.len() + c)]]
        } else {
            Seq::empty()
        }) + col_collect(src, tk, rows, c, r + 1)
    }
}

/// The ciphertext tail produced by the columns with rank `j` and above.
pub open spec fn irr_from(src: Seq<u8>, tk: Seq<u8>, rows: int, j: int) -> Seq<u8>
    decreases tk.len() - j,
{
    if j < 0 || j >= tk.len() {
        Seq::empty()
    } else {
        col_collect(src, tk, rows, rank_pos(tk, j), 0) + irr_from(src, tk, rows, j + 1)
    }
}

/// The irregular transposition of a source: the grid is filled in two
/// phases (non-triangular cells first) and read out column by column in
/// rank order.
pub open spec fn spec_irr_enc(tk: Seq<u8>, src: Seq<u8>) -> Seq<u8> {
    if src.len() == 0 || tk.len() == 0 {
        Seq::empty()
    } else {
        irr_from(src, tk, n_rows(src.len() as int, tk.len() as int), 0)
    }
}

/// The cells with triangular membership `m` from cell `p` on, in row-major
/// order, each holding the ciphertext byte at its output position.
pub open spec fn ph_collect(src: Seq<u8>, tk: Seq<u8>, rows: int, m: bool, p: int) -> Seq<u8>
    decreases rows * tk.len() - p,
{
    let cells = rows * tk.len();
    if p < 0 || p >= cells {
        Seq::empty()
    } else {
        (if tri_at(tk, p) == m && is_active(tk, cells, src.len() as int, p) {
            seq![src[out_pos(tk, rows, src.len() as int, p)]]
        } else {
            Seq::empty()
        }) + ph_collect(src, tk, rows, m, p + 1)
    }
}

/// The inverse irregular transposition: the ciphertext is distributed into
/// the active cells column by column in rank order and the grid is read
/// back in the two-phase fill order.
pub open spec fn spec_irr_dec(tk: Seq<u8>, src: Seq<u8>) -> Seq<u8> {
    if src.len() == 0 || tk.len() == 0 {
        Seq::empty()
    } else {
        let rows = n_rows(src.len() as int, tk.len() as int);
        ph_collect(src, tk, rows, false, 0) + ph_collect(src, tk, rows, true, 0)
    }
}

} // verus!
// Counting lemmas for the irregular grid: the fill positions enumerate the
// cells injectively, exactly `len` cells are active, and the per-column
// active counts partition the read-out.
verus! {

/// Number of active cells below `q_up` lying in column `c`.
pub open spec fn act_mod(tk: Seq<u8>, rows: int, len: int, c: int, q_up: int) -> int
    decreases q_up,
{
    if q_up <= 0 || tk.len() == 0 {
        0
    } else {
        act_mod(tk, rows, len, c, q_up - 1) + if (q_up - 1) % (tk.len() as int) == c
            && is_active(tk, rows * tk.len(), len, q_up - 1) {
            1int
        } else {
            0int
        }
    }
}

/// Number of active cells below `q_up` whose column rank is below `j`.
pub open spec fn act_rank_lt(tk: Seq<u8>, rows: int, len: int, j: int, q_up: int) -> int
    decreases q_up,
{
    if q_up <= 0 || tk.len() == 0 {
        0
    } else {
        act_rank_lt(tk, rows, len, j, q_up - 1) + if (tk[(q_up - 1) % (tk.len() as int)] as int)
            < j && is_active(tk, rows * tk.len(), len, q_up - 1) {
            1int
        } else {
            0int
        }
    }
}

/// Number of active cells below `p`.
pub open spec fn act_total(tk: Seq<u8>, cells: int, len: int, p: int) -> int
    decreases p,
{
    if p <= 0 {
        0
    } else {
        act_total(tk, cells, len, p - 1) + if is_active(tk, cells, len, p - 1) {
            1int
        } else {
            0int
        }
    }
}

/// Number of active cells below `p` with triangular membership `m`.
pub open spec fn am_count(tk: Seq<u8>, cells: int, len: int, m: bool, p: int) -> int
    decreases p,
{
    if p <= 0 {
        0
    } else {
        am_count(tk, cells, len, m, p - 1) + if tri_at(tk, p - 1) == m && is_active(
            tk,
            cells,
            len,
            p - 1,
        ) {
            1int
        } else {
            0int
        }
    }
}

proof fn lemma_tri_count_mono(tk: Seq<u8>, p: int, q: int, m: bool)
    requires
        p <= q,
    ensures
        tri_count(tk, p, m) <= tri_count(tk, q, m),
        tri_count(tk, q, m) - tri_count(tk, p, m) <= q - p,
    decreases q - p,
{
    if p < q {
        lemma_tri_count_mono(tk, p, q - 1, m);
    }
}

proof fn lemma_tri_count_nonneg(tk: Seq<u8>, p: int, m: bool)
    ensures
        0 <= tri_count(tk, p, m) <= if p >= 0 {
            p
        } else {
            0
        },
    decreases p,
{
    if p > 0 {
        lemma_tri_count_nonneg(tk, p - 1, m);
    }
}

/// Every cell is counted once, by its membership.
proof fn lemma_tri_count_split(tk: Seq<u8>, p: int)
    requires
        p >= 0,
    ensures
        tri_count(tk, p, true) + tri_count(tk, p, false) == p,
    decreases p,
{
    if p > 0 {
        lemma_tri_count_split(tk, p - 1);
    }
}

/// Fill positions stay inside the grid.
pub proof fn lemma_fill_pos_bound(tk: Seq<u8>, cells: int, p: int)
    requires
        0 <= p < cells,
    ensures
        0 <= fill_pos(tk, cells, p) < cells,
{
    lemma_tri_count_nonneg(tk, p, true);
    lemma_tri_count_nonneg(tk, p, false);
    lemma_tri_count_nonneg(tk, cells, false);
    lemma_tri_count_split(tk, cells);
    if tri_at(tk, p) {
        assert(tri_count(tk, p + 1, true) == tri_count(tk, p, true) + 1);
        lemma_tri_count_mono(tk, p + 1, cells, true);
    } else {
        assert(tri_count(tk, p + 1, false) == tri_count(tk, p, false) + 1);
        lemma_tri_count_mono(tk, p + 1, cells, false);
    }
}

/// The active count of a column, row recursion and cell recursion agree:
/// stepping one row adds at most the column's cell of that row.
proof fn lemma_act_mod_row(tk: Seq<u8>, rows: int, len: int, c: int, r: int, s: int)
    requires
        tk.len() >= 1,
        0 <= c < tk.len(),
        0 <= r,
        0 <= s <= tk.len(),
    ensures
        act_mod(tk, rows, len, c, r * tk.len() + s) == act_mod(tk, rows, len, c, r * tk.len())
            + if s > c && is_active(tk, rows * tk.len(), len, r * tk.len() + c) {
            1int
        } else {
            0int
        },
    decreases s,
{
    let klen = tk.len() as int;
    vstd::arithmetic::mul::lemma_mul_nonnegative(r, klen);
    if s > 0 {
        lemma_act_mod_row(tk, rows, len, c, r, s - 1);
        let q = r * klen + (s - 1);
        vstd::arithmetic::mul::lemma_mul_is_commutative(r, klen);
        vstd::arithmetic::div_mod::lemma_fundamental_div_mod_converse(q, klen, r, s - 1);
        assert(q % klen == s - 1);
    }
}

proof fn lemma_act_mod_is_act_rows(tk: Seq<u8>, rows: int, len: int, c: int, r: int)
    requires
        tk.len() >= 1,
        0 <= c < tk.len(),
        0 <= r,
    ensures
        act_mod(tk, rows, len, c, r * tk.len()) == act_rows(tk, rows, len, c, r),
    decreases r,
{
    let klen = tk.len() as int;
    if r > 0 {
        lemma_act_mod_is_act_rows(tk, rows, len, c, r - 1);
        lemma_act_mod_row(tk, rows, len, c, r - 1, klen);
        assert((r - 1) * klen + klen == r * klen) by (nonlinear_arith);
        assert(act_mod(tk, rows, len, c, (r - 1) * klen + klen) == act_mod(
            tk,
            rows,
            len,
            c,
            r * klen,
        ));
        assert(act_mod(tk, rows, len, c, (r - 1) * klen + klen) == act_mod(
            tk,
            rows,
            len,
            c,
            (r - 1) * klen,
        ) + if is_active(tk, rows * tk.len(), len, (r - 1) * klen + c) {
            1int
        } else {
            0int
        });
        assert(act_rows(tk, rows, len, c, r) == act_rows(tk, rows, len, c, r - 1) + if is_active(
            tk,
            rows * tk.len(),
            len,
            (r - 1) * tk.len() + c,
        ) {
            1int
        } else {
            0int
        });
        assert((r - 1) * klen + c == (r - 1) * tk.len() + c);
        assert(act_mod(tk, rows, len, c, r * klen) == act_rows(tk, rows, len, c, r));
        assert(r * klen == r * tk.len());
    } else {
        assert(r == 0);
        assert(r * tk.len() == 0) by (nonlinear_arith)
            requires
                r == 0,
        ;
        assert(act_mod(tk, rows, len, c, 0) == 0);
        assert(act_rows(tk, rows, len, c, 0) == 0);
    }
}

proof fn lemma_act_rank_none(tk: Seq<u8>, rows: int, len: int, j: int, q_up: int)
    requires
        j <= 0,
    ensures
        act_rank_lt(tk, rows, len, j, q_up) == 0,
    decreases q_up,
{
    if q_up > 0 && tk.len() >= 1 {
        lemma_act_rank_none(tk, rows, len, j, q_up - 1);
    }
}

proof fn lemma_act_rank_step(tk: Seq<u8>, rows: int, len: int, j: int, q_up: int)
    requires
        tk.len() >= 1,
        is_perm(tk),
        0 <= j < tk.len(),
        0 <= q_up,
    ensures
        act_rank_lt(tk, rows, len, j + 1, q_up) == act_rank_lt(tk, rows, len, j, q_up)
            + act_mod(tk, rows, len, rank_pos(tk, j), q_up),
    decreases q_up,
{
    lemma_rank_pos(tk, j);
    if q_up > 0 {
        lemma_act_rank_step(tk, rows, len, j, q_up - 1);
        let klen = tk.len() as int;
        vstd::arithmetic::div_mod::lemma_mod_bound(q_up - 1, klen);
        let c = (q_up - 1) % klen;
        assert(((tk[c] as int) == j) <==> (c == rank_pos(tk, j)));
    }
}

proof fn lemma_act_rank_all(tk: Seq<u8>, rows: int, len: int, j: int, q_up: int)
    requires
        tk.len() >= 1,
        is_perm(tk),
        j >= tk.len(),
        0 <= q_up,
    ensures
        act_rank_lt(tk, rows, len, j, q_up) == act_total(tk, rows * tk.len(), len, q_up),
    decreases q_up,
{
    if q_up > 0 {
        lemma_act_rank_all(tk, rows, len, j, q_up - 1);
        vstd::arithmetic::div_mod::lemma_mod_bound(q_up - 1, tk.len() as int);
    }
}

/// The read-out start offsets follow the active counts.
proof fn lemma_act_col_start_counts(tk: Seq<u8>, rows: int, len: int, j: int)
    requires
        tk.len() >= 1,
        is_perm(tk),
        0 <= j <= tk.len(),
        0 <= rows,
    ensures
        act_col_start(tk, rows, len, j) == act_rank_lt(tk, rows, len, j, rows * tk.len()),
    decreases j,
{
    vstd::arithmetic::mul::lemma_mul_nonnegative(rows, tk.len() as int);
    if j <= 0 {
        lemma_act_rank_none(tk, rows, len, j, rows * tk.len());
    } else {
        lemma_act_col_start_counts(tk, rows, len, j - 1);
        lemma_act_rank_step(tk, rows, len, j - 1, rows * tk.len());
        lemma_rank_pos(tk, j - 1);
        lemma_act_mod_is_act_rows(tk, rows, len, rank_pos(tk, j - 1), rows);
    }
}

/// The clamped enumeration of fill positions: exactly `min(len, cells)`
/// cells are active.
proof fn lemma_act_total_split(tk: Seq<u8>, cells: int, len: int, p: int)
    requires
        0 <= p <= cells,
        0 <= len,
    ensures
        act_total(tk, cells, len, p) == (if tri_count(tk, p, false) <= len {
            tri_count(tk, p, false)
        } else {
            len
        }) + (if tri_count(tk, p, true) <= len - tri_count(tk, cells, false) {
            if tri_count(tk, p, true) >= 0 {
                tri_count(tk, p, true)
            } else {
                0
            }
        } else {
            if len - tri_count(tk, cells, false) >= 0 {
                len - tri_count(tk, cells, false)
            } else {
                0
            }
        }),
    decreases p,
{
    lemma_tri_count_nonneg(tk, p, true);
    lemma_tri_count_nonneg(tk, p, false);
    lemma_tri_count_nonneg(tk, cells, false);
    if p > 0 {
        lemma_act_total_split(tk, cells, len, p - 1);
        lemma_tri_count_nonneg(tk, p - 1, true);
        lemma_tri_count_nonneg(tk, p - 1, false);
        lemma_tri_count_mono(tk, p, cells, false);
        if !tri_at(tk, p - 1) {
            lemma_tri_count_mono(tk, p, cells, false);
        }
    }
}

/// With enough grid cells, exactly `len` of them are active.
pub proof fn lemma_act_total_len(tk: Seq<u8>, cells: int, len: int)
    requires
        0 <= len <= cells,
    ensures
        act_total(tk, cells, len, cells) == len,
{
    lemma_act_total_split(tk, cells, len, cells);
    lemma_tri_count_split(tk, cells);
    lemma_tri_count_nonneg(tk, cells, true);
    lemma_tri_count_nonneg(tk, cells, false);
}

/// A grid with `ceil(len / klen)` rows holds the whole source.
pub proof fn lemma_rows_cover(len: int, klen: int)
    requires
        klen >= 1,
        len >= 0,
    ensures
        n_rows(len, klen) * klen >= len,
        n_rows(len, klen) >= 0,
        len > 0 ==> n_rows(len, klen) >= 1,
{
    vstd::arithmetic::div_mod::lemma_fundamental_div_mod(len + klen - 1, klen);
    vstd::arithmetic::div_mod::lemma_mod_bound(len + klen - 1, klen);
    vstd::arithmetic::div_mod::lemma_div_pos_is_pos(len + klen - 1, klen);
    let q = (len + klen - 1) / klen;
    assert(klen * q == q * klen) by (nonlinear_arith);
    if len > 0 && q == 0 {
        assert(false);
    }
}

/// Lengths of the collected columns.
proof fn lemma_col_collect_len(src: Seq<u8>, tk: Seq<u8>, rows: int, c: int, r: int)
    requires
        tk.len() >= 1,
        0 <= r <= rows,
    ensures
        col_collect(src, tk, rows, c, r).len() == act_rows(tk, rows, src.len() as int, c, rows)
            - act_rows(tk, rows, src.len() as int, c, r),
    decreases rows - r,
{
    if r < rows {
        lemma_col_collect_len(src, tk, rows, c, r + 1);
    } else {
    }
    lemma_act_rows_mono(tk, rows, src.len() as int, c, r, rows);
}

proof fn lemma_act_rows_mono(tk: Seq<u8>, rows: int, len: int, c: int, a: int, b: int)
    requires
        a <= b,
    ensures
        act_rows(tk, rows, len, c, a) <= act_rows(tk, rows, len, c, b),
    decreases b - a,
{
    if a < b {
        lemma_act_rows_mono(tk, rows, len, c, a, b - 1);
    }
}

/// Lengths of the read-out tails.
proof fn lemma_irr_from_len(src: Seq<u8>, tk: Seq<u8>, rows: int, j: int)
    requires
        tk.len() >= 1,
        is_perm(tk),
        0 <= j <= tk.len(),
        0 <= rows,
    ensures
        irr_from(src, tk, rows, j).len() == act_col_start(tk, rows, src.len() as int, tk.len() as int)
            - act_col_start(tk, rows, src.len() as int, j),
    decreases tk.len() - j,
{
    if j < tk.len() {
        lemma_irr_from_len(src, tk, rows, j + 1);
        lemma_rank_pos(tk, j);
        lemma_col_collect_len(src, tk, rows, rank_pos(tk, j), 0);
    }
}

/// The irregular ciphertext has the length of the source.
pub proof fn lemma_irr_enc_len(tk: Seq<u8>, src: Seq<u8>)
    requires
        tk.len() >= 1,
        is_perm(tk),
    ensures
        spec_irr_enc(tk, src).len() == src.len(),
{
    let len = src.len() as int;
    let klen = tk.len() as int;
    if len > 0 {
        let rows = n_rows(len, klen);
        lemma_rows_cover(len, klen);
        lemma_irr_from_len(src, tk, rows, 0);
        lemma_act_col_start_counts(tk, rows, len, klen);
        lemma_act_rank_all(tk, rows, len, klen, rows * klen);
        lemma_act_total_len(tk, rows * klen, len);
    }
}

proof fn lemma_am_count_split(tk: Seq<u8>, cells: int, len: int, p: int)
    requires
        0 <= p,
    ensures
        am_count(tk, cells, len, true, p) + am_count(tk, cells, len, false, p) == act_total(
            tk,
            cells,
            len,
            p,
        ),
    decreases p,
{
    if p > 0 {
        lemma_am_count_split(tk, cells, len, p - 1);
    }
}

proof fn lemma_am_count_mono(tk: Seq<u8>, cells: int, len: int, m: bool, a: int, b: int)
    requires
        a <= b,
    ensures
        am_count(tk, cells, len, m, a) <= am_count(tk, cells, len, m, b),
    decreases b - a,
{
    if a < b {
        lemma_am_count_mono(tk, cells, len, m, a, b - 1);
    }
}

/// Lengths of the two-phase read-back.
proof fn lemma_ph_collect_len(src: Seq<u8>, tk: Seq<u8>, rows: int, m: bool, p: int)
    requires
        tk.len() >= 1,
        0 <= p <= rows * tk.len(),
        0 <= rows,
    ensures
        ph_collect(src, tk, rows, m, p).len() == am_count(
            tk,
            rows * tk.len(),
            src.len() as int,
            m,
            rows * tk.len(),
        ) - am_count(tk, rows * tk.len(), src.len() as int, m, p),
    decreases rows * tk.len() - p,
{
    if p < rows * tk.len() {
        lemma_ph_collect_len(src, tk, rows, m, p + 1);
    }
    lemma_am_count_mono(tk, rows * tk.len(), src.len() as int, m, p, rows * tk.len());
}

/// The recovered plaintext has the length of the ciphertext.
pub proof fn lemma_irr_dec_len(tk: Seq<u8>, src: Seq<u8>)
    requires
        tk.len() >= 1,
        is_perm(tk),
    ensures
        spec_irr_dec(tk, src).len() == src.len(),
{
    let len = src.len() as int;
    let klen = tk.len() as int;
    if len > 0 {
        let rows = n_rows(len, klen);
        lemma_rows_cover(len, klen);
        lemma_ph_collect_len(src, tk, rows, false, 0);
        lemma_ph_collect_len(src, tk, rows, true, 0);
        lemma_am_count_split(tk, rows * klen, len, rows * klen);
        lemma_act_total_len(tk, rows * klen, len);
    }
}

} // verus!
verus! {

/// Row/column arithmetic for a cell index.
proof fn lemma_cell(rows: int, klen: int, r: int, c: int)
    requires
        klen >= 1,
        0 <= r < rows,
        0 <= c < klen,
    ensures
        0 <= r * klen + c < rows * klen,
        (r * klen + c) % klen == c,
        (r * klen + c) / klen == r,
{
    vstd::arithmetic::mul::lemma_mul_nonnegative(r, klen);
    vstd::arithmetic::mul::lemma_mul_is_commutative(r, klen);
    vstd::arithmetic::div_mod::lemma_fundamental_div_mod_converse(r * klen + c, klen, r, c);
    vstd::arithmetic::mul::lemma_mul_inequality(r + 1, rows, klen);
    assert((r + 1) * klen == r * klen + klen) by (nonlinear_arith);
}

/// The grid of `ceil(len / klen)` rows has at least `len` and fewer than
/// `len + klen` cells.
proof fn lemma_cells_bound(len: int, klen: int)
    requires
        klen >= 1,
        0 <= len,
    ensures
        len <= n_rows(len, klen) * klen <= len + klen - 1,
        n_rows(len, klen) >= 0,
{
    lemma_rows_cover(len, klen);
    vstd::arithmetic::div_mod::lemma_fundamental_div_mod(len + klen - 1, klen);
    vstd::arithmetic::div_mod::lemma_mod_bound(len + klen - 1, klen);
    let q = (len + klen - 1) / klen;
    assert(klen * q == q * klen) by (nonlinear_arith);
}

/// Read-out start offsets grow with the rank.
proof fn lemma_act_col_start_mono(tk: Seq<u8>, rows: int, len: int, a: int, b: int)
    requires
        tk.len() >= 1,
        is_perm(tk),
        0 <= a <= b <= tk.len(),
        0 <= rows,
    ensures
        act_col_start(tk, rows, len, a) <= act_col_start(tk, rows, len, b),
    decreases b - a,
{
    if a < b {
        lemma_act_col_start_mono(tk, rows, len, a + 1, b);
        lemma_rank_pos(tk, a);
        lemma_act_rows_mono(tk, rows, len, rank_pos(tk, a), 0, rows);
    }
}

/// All active cells together hold the whole source.
proof fn lemma_act_col_start_total(tk: Seq<u8>, rows: int, len: int)
    requires
        tk.len() >= 1,
        is_perm(tk),
        0 <= len <= rows * tk.len(),
        0 <= rows,
    ensures
        act_col_start(tk, rows, len, tk.len() as int) == len,
{
    lemma_act_col_start_counts(tk, rows, len, tk.len() as int);
    lemma_act_rank_all(tk, rows, len, tk.len() as int, rows * tk.len());
    lemma_act_total_len(tk, rows * tk.len(), len);
}

/// Marking one more cell of the current row extends the marked column
/// range by one.
#[verifier::spinoff_prover]
proof fn lemma_mask_step(
    klen: int,
    cells: int,
    start: int,
    row: int,
    lo: int,
    c: int,
    m0: Seq<bool>,
    m_pre: Seq<bool>,
    m_post: Seq<bool>,
)
    requires
        klen >= 1,
        0 <= c < klen,
        0 <= lo <= c,
        0 <= row,
        row * klen + c < cells,
        m0.len() == cells,
        m_pre.len() == cells,
        m_post == m_pre.update(row * klen + c, true),
        forall|p: int|
            0 <= p < cells ==> m_pre[p] == (m0[p] || IrregularTransposition::area_mark(
                klen,
                start,
                row,
                p,
            ) || IrregularTransposition::row_mark(klen, row, lo, c, p)),
    ensures
        forall|p: int|
            0 <= p < cells ==> m_post[p] == (m0[p] || IrregularTransposition::area_mark(
                klen,
                start,
                row,
                p,
            ) || IrregularTransposition::row_mark(klen, row, lo, c + 1, p)),
{
    let idx = row * klen + c;
    vstd::arithmetic::mul::lemma_mul_nonnegative(row, klen);
    vstd::arithmetic::mul::lemma_mul_is_commutative(klen, row);
    vstd::arithmetic::div_mod::lemma_fundamental_div_mod_converse(idx, klen, row, c);
    assert forall|p: int| 0 <= p < cells implies m_post[p] == (m0[p]
        || IrregularTransposition::area_mark(klen, start, row, p)
        || IrregularTransposition::row_mark(klen, row, lo, c + 1, p)) by {
        if p == idx {
        } else {
            if p / klen == row && p % klen == c {
                vstd::arithmetic::div_mod::lemma_fundamental_div_mod(p, klen);
                assert(false);
            }
        }
    }
}

/// Once a row is fully marked from its anchor column, the widening area
/// gains that row.
#[verifier::spinoff_prover]
proof fn lemma_mask_row_done(
    klen: int,
    cells: int,
    start: int,
    row: int,
    m0: Seq<bool>,
    m: Seq<bool>,
)
    requires
        klen >= 1,
        0 <= row,
        0 <= start,
        m0.len() == cells,
        m.len() == cells,
        forall|p: int|
            0 <= p < cells ==> m[p] == (m0[p] || IrregularTransposition::area_mark(
                klen,
                start,
                row,
                p,
            ) || IrregularTransposition::row_mark(klen, row, start + row, klen, p)),
    ensures
        forall|p: int|
            0 <= p < cells ==> m[p] == (m0[p] || IrregularTransposition::area_mark(
                klen,
                start,
                row + 1,
                p,
            )),
{
    assert forall|p: int| 0 <= p < cells implies m[p] == (m0[p]
        || IrregularTransposition::area_mark(klen, start, row + 1, p)) by {
        vstd::arithmetic::div_mod::lemma_mod_bound(p, klen);
    }
}

/// When the marking stops, the rows never reached lie outside the area,
/// so the partial area equals the full triangular band.
#[verifier::spinoff_prover]
proof fn lemma_mask_area_done(
    klen: int,
    rows: int,
    cells: int,
    start: int,
    row: int,
    m0: Seq<bool>,
    m: Seq<bool>,
)
    requires
        klen >= 1,
        0 <= start < klen,
        0 <= row,
        cells == rows * klen,
        row >= rows || start + row >= klen,
        m0.len() == cells,
        m.len() == cells,
        forall|p: int|
            0 <= p < cells ==> m[p] == (m0[p] || IrregularTransposition::area_mark(
                klen,
                start,
                row,
                p,
            )),
    ensures
        forall|p: int| 0 <= p < cells ==> m[p] == (m0[p] || p % klen >= start + p / klen),
{
    assert forall|p: int| 0 <= p < cells implies m[p] == (m0[p] || p % klen >= start + p
        / klen) by {
        vstd::arithmetic::div_mod::lemma_mod_bound(p, klen);
        vstd::arithmetic::div_mod::lemma_fundamental_div_mod(p, klen);
        vstd::arithmetic::div_mod::lemma_div_pos_is_pos(p, klen);
        if !(p / klen < row) {
            if row >= rows {
                assert(p / klen < rows) by {
                    if p / klen >= rows {
                        vstd::arithmetic::mul::lemma_mul_inequality(rows, p / klen, klen);
                        vstd::arithmetic::mul::lemma_mul_is_commutative(klen, p / klen);
                        vstd::arithmetic::mul::lemma_mul_is_commutative(rows, klen);
                        assert(false);
                    }
                }
                assert(false);
            } else {
                assert(p % klen < klen <= start + row <= start + p / klen);
            }
        }
    }
}

/// An irregular transposition cipher: the variant of the columnar
/// transposition in which two triangular regions carry the tail of the
/// message.
pub struct IrregularTransposition {
    key: String,
    tkey: Vec<u8>,
}

impl View for IrregularTransposition {
    type V = Seq<u8>;

    /// The cipher is modelled by its rank sequence.
    closed spec fn view(&self) -> Seq<u8> {
        self.tkey@
    }
}

impl IrregularTransposition {
    /// Creates a new irregular transposition cipher; the key must not be
    /// empty.
    pub fn new(key: &str) -> (r: Result<Self, String>)
        requires
            key.spec_bytes().len() <= 256,
        ensures
            match r {
                Ok(c) => key.spec_bytes().len() > 0 && c.wf() && c@ == spec_rank(
                    key.spec_bytes(),
                ),
                Err(_) => key.spec_bytes().len() == 0,
            },
    {
        if key.len() == 0 {
            return Err("key can not be empty".to_owned());
        }
        proof {
            lemma_spec_rank_is_perm(key.spec_bytes());
        }
        Ok(IrregularTransposition { key: key.to_owned(), tkey: helpers::to_numeric(key) })
    }

    /// Cells already marked for an area anchored at `start`, on the rows
    /// below `rlim`.
    pub open spec fn area_mark(klen: int, start: int, rlim: int, p: int) -> bool {
        p / klen < rlim && p % klen >= start + p / klen
    }

    /// Cells of row `row` with column in `[lo, hi)`.
    pub open spec fn row_mark(klen: int, row: int, lo: int, hi: int, p: int) -> bool {
        p / klen == row && lo <= p % klen < hi
    }

    /// Computes which cells belong to the triangular regions for a message
    /// of the given length.
    #[verifier::rlimit(100)]
    #[verifier::spinoff_prover]
    pub fn get_triangular_mask(&self, len: usize) -> (mask: Vec<bool>)
        requires
            self.wf(),
            len <= usize::MAX - 256,
        ensures
            mask@.len() == n_rows(len as int, self@.len() as int) * self@.len(),
            forall|p: int| 0 <= p < mask@.len() ==> mask@[p] == tri_at(self@, p),
    {
        let ghost tk = self.tkey@;
        let klen: usize = self.tkey.len();
        let rows: usize = (len + klen - 1) / klen;
        proof {
            lemma_cells_bound(len as int, klen as int);
        }
        let cells: usize = rows * klen;
        let mut mask: Vec<bool> = vec![false; cells];
        let areas: usize = if klen >= 2 {
            2
        } else {
            1
        };
        let mut a: usize = 0;
        while a < areas
            invariant
                tk == self.tkey@,
                klen == tk.len(),
                1 <= klen <= 256,
                is_perm(tk),
                rows == n_rows(len as int, klen as int),
                cells == rows as int * klen as int,
                mask@.len() == cells,
                areas == if klen >= 2 {
                    2int
                } else {
                    1int
                },
                a <= areas,
                forall|p: int|
                    0 <= p < cells ==> mask@[p] == ((a >= 1 && p % (klen as int) >= rank_pos(
                        tk,
                        0,
                    ) + p / (klen as int)) || (a >= 2 && p % (klen as int) >= rank_pos(tk, 1)
                        + p / (klen as int))),
                mask@.len() == cells,
            decreases areas - a,
        {
            proof {
                lemma_rank_pos(tk, a as int);
            }
            let start_col: usize = find_rank(&self.tkey, a as u8);
            proof {
                lemma_rank_pos(tk, a as int);
                assert(start_col as int == rank_pos(tk, a as int));
            }
            let ghost mask0 = mask@;
            let mut curr_col: usize = start_col;
            let mut curr_row: usize = 0;
            while curr_row < rows && curr_col < klen
                invariant
                    tk == self.tkey@,
                    klen == tk.len(),
                    1 <= klen <= 256,
                    is_perm(tk),
                    cells == rows as int * klen as int,
                    mask@.len() == cells,
                    start_col as int == rank_pos(tk, a as int),
                    start_col < klen,
                    mask0.len() == cells,
                    curr_col == start_col + curr_row,
                    curr_row <= rows,
                    forall|p: int|
                        0 <= p < cells ==> mask@[p] == (mask0[p] || Self::area_mark(
                            klen as int,
                            start_col as int,
                            curr_row as int,
                            p,
                        )),
                decreases rows - curr_row,
            {
                proof {
                    lemma_cell(rows as int, klen as int, curr_row as int, curr_col as int);
                }
                let base: usize = curr_row * klen;
                let mut c: usize = curr_col;
                while c < klen
                    invariant
                        tk == self.tkey@,
                        klen == tk.len(),
                        cells == rows as int * klen as int,
                        mask@.len() == cells,
                        curr_row < rows,
                        curr_col < klen,
                        mask0.len() == cells,
                        start_col < klen,
                        base == curr_row as int * klen as int,
                        curr_col <= c <= klen,
                        forall|p: int|
                            0 <= p < cells ==> mask@[p] == (mask0[p] || Self::area_mark(
                                klen as int,
                                start_col as int,
                                curr_row as int,
                                p,
                            ) || Self::row_mark(
                                klen as int,
                                curr_row as int,
                                curr_col as int,
                                c as int,
                                p,
                            )),
                    decreases klen - c,
                {
                    proof {
                        lemma_cell(rows as int, klen as int, curr_row as int, c as int);
                    }
                    let ghost m_pre = mask@;
                    mask[base + c] = true;
                    let ghost c_old = c as int;
                    c = c + 1;
                    proof {
                        lemma_mask_step(
                            klen as int,
                            cells as int,
                            start_col as int,
                            curr_row as int,
                            curr_col as int,
                            c_old,
                            mask0,
                            m_pre,
                            mask@,
                        );
                    }
                }
                proof {
                    assert(c == klen);
                    lemma_mask_row_done(
                        klen as int,
                        cells as int,
                        start_col as int,
                        curr_row as int,
                        mask0,
                        mask@,
                    );
                }
                curr_row = curr_row + 1;
                curr_col = curr_col + 1;
            }
            proof {
                let m_now = mask@;
                assert forall|p: int|
                    0 <= p < cells implies m_now[p] == (mask0[p]
                    || IrregularTransposition::area_mark(
                    klen as int,
                    start_col as int,
                    curr_row as int,
                    p,
                )) by {}
                lemma_mask_area_done(
                    klen as int,
                    rows as int,
                    cells as int,
                    start_col as int,
                    curr_row as int,
                    mask0,
                    m_now,
                );
            }
            a = a + 1;
        }
        proof {
            assert forall|p: int| 0 <= p < cells implies mask@[p] == tri_at(tk, p) by {
                if klen >= 2 {
                    assert(areas == 2);
                } else {
                    assert(areas == 1);
                }
            }
        }
        mask
    }

    /// Writes the source into the grid in the two-phase fill order and
    /// records which cells received a byte.
    #[verifier::rlimit(100)]
    #[verifier::spinoff_prover]
    fn fill_grid(&self, mask: &Vec<bool>, src: &[u8], rows: usize, cells: usize) -> (ga: (
        Vec<u8>,
        Vec<bool>,
    ))
        requires
            self.wf(),
            mask@.len() == cells,
            forall|q: int| 0 <= q < cells ==> mask@[q] == tri_at(self@, q),
            cells == rows as int * self@.len(),
            1 <= src@.len() <= cells,
        ensures
            ga.0@.len() == cells,
            ga.1@.len() == cells,
            forall|q: int|
                0 <= q < cells ==> ga.1@[q] == is_active(
                    self@,
                    cells as int,
                    src@.len() as int,
                    q,
                ),
            forall|q: int|
                0 <= q < cells && ga.1@[q] ==> ga.0@[q] == src@[fill_pos(
                    self@,
                    cells as int,
                    q,
                )],
    {
        let ghost tk = self@;
        let len: usize = src.len();
        let mut grid: Vec<u8> = vec![0u8; cells];
        let mut active: Vec<bool> = vec![false; cells];
        let mut src_idx: usize = 0;
        let ghost nm = tri_count(tk, cells as int, false);
        let mut p: usize = 0;
        while p < cells
            invariant
                tk == self@,
                len == src@.len(),
                1 <= len <= cells,
                mask@.len() == cells,
                forall|q: int| 0 <= q < cells ==> mask@[q] == tri_at(tk, q),
                grid@.len() == cells,
                active@.len() == cells,
                p <= cells,
                src_idx == if tri_count(tk, p as int, false) <= len {
                    tri_count(tk, p as int, false)
                } else {
                    len as int
                },
                forall|q: int|
                    0 <= q < p && !tri_at(tk, q) ==> active@[q] == (tri_count(tk, q, false)
                        < len),
                forall|q: int|
                    0 <= q < p && !tri_at(tk, q) && active@[q] ==> grid@[q] == src@[tri_count(
                        tk,
                        q,
                        false,
                    )],
                forall|q: int| 0 <= q < cells && (tri_at(tk, q) || q >= p) ==> !active@[q],
            decreases cells - p,
        {
            proof {
                lemma_tri_count_nonneg(tk, p as int, false);
            }
            let ghost act_pre = active@;
            let mut wrote: bool = false;
            if !mask[p] && src_idx < len {
                grid[p] = src[src_idx];
                active[p] = true;
                src_idx = src_idx + 1;
                wrote = true;
            }
            proof {
                assert forall|q: int|
                    0 <= q < cells && (tri_at(tk, q) || q >= p as int) implies !act_pre[q] by {}
                lemma_inactive_step(tk, cells as int, p as int, wrote, act_pre, active@);
            }
            p = p + 1;
        }
        proof {
            lemma_tri_count_nonneg(tk, cells as int, false);
        }
        let mut p2: usize = 0;
        while p2 < cells
            invariant
                tk == self@,
                len == src@.len(),
                1 <= len <= cells,
                mask@.len() == cells,
                forall|q: int| 0 <= q < cells ==> mask@[q] == tri_at(tk, q),
                grid@.len() == cells,
                active@.len() == cells,
                nm == tri_count(tk, cells as int, false),
                0 <= nm,
                p2 <= cells,
                src_idx == if nm + tri_count(tk, p2 as int, true) <= len {
                    nm + tri_count(tk, p2 as int, true)
                } else {
                    len as int
                },
                forall|q: int|
                    0 <= q < cells && !tri_at(tk, q) ==> active@[q] == (tri_count(tk, q, false)
                        < len),
                forall|q: int|
                    0 <= q < cells && !tri_at(tk, q) && active@[q] ==> grid@[q] == src@[tri_count(
                        tk,
                        q,
                        false,
                    )],
                forall|q: int|
                    0 <= q < p2 && tri_at(tk, q) ==> active@[q] == (nm + tri_count(tk, q, true)
                        < len),
                forall|q: int|
                    0 <= q < p2 && tri_at(tk, q) && active@[q] ==> grid@[q] == src@[nm
                        + tri_count(tk, q, true)],
                forall|q: int| p2 <= q < cells && tri_at(tk, q) ==> !active@[q],
            decreases cells - p2,
        {
            proof {
                lemma_tri_count_nonneg(tk, p2 as int, true);
                lemma_tri_count_mono(tk, p2 as int, cells as int, false);
            }
            let ghost act_pre = active@;
            let mut wrote: bool = false;
            if mask[p2] && src_idx < len {
                grid[p2] = src[src_idx];
                active[p2] = true;
                src_idx = src_idx + 1;
                wrote = true;
            } else {
                proof {
                    if tri_at(tk, p2 as int) {
                        lemma_fill_pos_bound(tk, cells as int, p2 as int);
                    }
                }
            }
            proof {
                assert forall|q: int|
                    p2 as int <= q < cells && tri_at(tk, q) implies !act_pre[q] by {}
                lemma_inactive_step_tri(tk, cells as int, p2 as int, wrote, act_pre, active@);
            }
            p2 = p2 + 1;
        }
        (grid, active)
    }

    /// Recomputes which cells received a byte during encryption.
    #[verifier::rlimit(100)]
    #[verifier::spinoff_prover]
    fn mark_active(&self, mask: &Vec<bool>, len: usize, rows: usize, cells: usize) -> (active:
        Vec<bool>)
        requires
            self.wf(),
            mask@.len() == cells,
            forall|q: int| 0 <= q < cells ==> mask@[q] == tri_at(self@, q),
            cells == rows as int * self@.len(),
            1 <= len <= cells,
        ensures
            active@.len() == cells,
            forall|q: int|
                0 <= q < cells ==> active@[q] == is_active(self@, cells as int, len as int, q),
    {
        let ghost tk = self@;
        let mut active: Vec<bool> = vec![false; cells];
        let mut count: usize = 0;
        let ghost nm = tri_count(tk, cells as int, false);
        let mut p: usize = 0;
        while p < cells
            invariant
                tk == self@,
                1 <= len <= cells,
                mask@.len() == cells,
                forall|q: int| 0 <= q < cells ==> mask@[q] == tri_at(tk, q),
                active@.len() == cells,
                p <= cells,
                count == if tri_count(tk, p as int, false) <= len {
                    tri_count(tk, p as int, false)
                } else {
                    len as int
                },
                forall|q: int|
                    0 <= q < p && !tri_at(tk, q) ==> active@[q] == (tri_count(tk, q, false)
                        < len),
                forall|q: int| 0 <= q < cells && (tri_at(tk, q) || q >= p) ==> !active@[q],
            decreases cells - p,
        {
            proof {
                lemma_tri_count_nonneg(tk, p as int, false);
            }
            let ghost act_pre = active@;
            let mut wrote: bool = false;
            if !mask[p] && count < len {
                active[p] = true;
                count = count + 1;
                wrote = true;
            }
            proof {
                assert forall|q: int|
                    0 <= q < cells && (tri_at(tk, q) || q >= p as int) implies !act_pre[q] by {}
                lemma_inactive_step(tk, cells as int, p as int, wrote, act_pre, active@);
            }
            p = p + 1;
        }
        proof {
            lemma_tri_count_nonneg(tk, cells as int, false);
        }
        let mut p2: usize = 0;
        while p2 < cells
            invariant
                tk == self@,
                1 <= len <= cells,
                mask@.len() == cells,
                forall|q: int| 0 <= q < cells ==> mask@[q] == tri_at(tk, q),
                active@.len() == cells,
                nm == tri_count(tk, cells as int, false),
                0 <= nm,
                p2 <= cells,
                count == if nm + tri_count(tk, p2 as int, true) <= len {
                    nm + tri_count(tk, p2 as int, true)
                } else {
                    len as int
                },
                forall|q: int|
                    0 <= q < cells && !tri_at(tk, q) ==> active@[q] == (tri_count(tk, q, false)
                        < len),
                forall|q: int|
                    0 <= q < p2 && tri_at(tk, q) ==> active@[q] == (nm + tri_count(tk, q, true)
                        < len),
                forall|q: int| p2 <= q < cells && tri_at(tk, q) ==> !active@[q],
            decreases cells - p2,
        {
            proof {
                lemma_tri_count_nonneg(tk, p2 as int, true);
                lemma_tri_count_mono(tk, p2 as int, cells as int, false);
            }
            let ghost act_pre = active@;
            let mut wrote: bool = false;
            if mask[p2] && count < len {
                active[p2] = true;
                count = count + 1;
                wrote = true;
            } else {
                proof {
                    if tri_at(tk, p2 as int) {
                        lemma_fill_pos_bound(tk, cells as int, p2 as int);
                    }
                }
            }
            proof {
                assert forall|q: int|
                    p2 as int <= q < cells && tri_at(tk, q) implies !act_pre[q] by {}
                lemma_inactive_step_tri(tk, cells as int, p2 as int, wrote, act_pre, active@);
            }
            p2 = p2 + 1;
        }
        active
    }
}

} // verus!
verus! {

/// Marking one more non-triangular cell keeps every later or triangular
/// cell unmarked.
#[verifier::spinoff_prover]
proof fn lemma_inactive_step(
    tk: Seq<u8>,
    cells: int,
    p: int,
    wrote: bool,
    act_pre: Seq<bool>,
    act_post: Seq<bool>,
)
    requires
        0 <= p < cells,
        act_pre.len() == cells,
        act_post == if wrote {
            act_pre.update(p, true)
        } else {
            act_pre
        },
        wrote ==> !tri_at(tk, p),
        forall|q: int| 0 <= q < cells && (tri_at(tk, q) || q >= p) ==> !act_pre[q],
    ensures
        forall|q: int| 0 <= q < cells && (tri_at(tk, q) || q >= p + 1) ==> !act_post[q],
{
}

/// Marking one more triangular cell keeps every later triangular cell
/// unmarked.
#[verifier::spinoff_prover]
proof fn lemma_inactive_step_tri(
    tk: Seq<u8>,
    cells: int,
    p: int,
    wrote: bool,
    act_pre: Seq<bool>,
    act_post: Seq<bool>,
)
    requires
        0 <= p < cells,
        act_pre.len() == cells,
        act_post == if wrote {
            act_pre.update(p, true)
        } else {
            act_pre
        },
        wrote ==> tri_at(tk, p),
        forall|q: int| p <= q < cells && tri_at(tk, q) ==> !act_pre[q],
    ensures
        forall|q: int| p + 1 <= q < cells && tri_at(tk, q) ==> !act_post[q],
{
}

/// Writing the next ciphertext byte into its cell completes one more row
/// of the column being distributed.
#[verifier::spinoff_prover]
proof fn lemma_grid_update(
    tk: Seq<u8>,
    rows: int,
    len: int,
    col: int,
    r: int,
    src: Seq<u8>,
    active: Seq<bool>,
    grid_pre: Seq<u8>,
    grid_post: Seq<u8>,
)
    requires
        tk.len() >= 1,
        0 <= col < tk.len(),
        0 <= r < rows,
        active.len() == rows * tk.len(),
        grid_pre.len() == rows * tk.len(),
        grid_post == grid_pre.update(
            r * tk.len() + col,
            src[out_pos(tk, rows, len, r * tk.len() + col)],
        ),
        0 <= out_pos(tk, rows, len, r * tk.len() + col) < src.len(),
        forall|q: int|
            0 <= q < rows * tk.len() && active[q] && q % (tk.len() as int) == col && q / (
            tk.len() as int) < r ==> grid_pre[q] == src[out_pos(tk, rows, len, q)],
    ensures
        forall|q: int|
            0 <= q < rows * tk.len() && active[q] && q % (tk.len() as int) == col && q / (
            tk.len() as int) < r + 1 ==> grid_post[q] == src[out_pos(tk, rows, len, q)],
{
    let klen = tk.len() as int;
    let idx = r * klen + col;
    lemma_cell(rows, klen, r, col);
    assert forall|q: int|
        0 <= q < rows * klen && active[q] && q % klen == col && q / klen < r + 1 implies
        grid_post[q] == src[out_pos(tk, rows, len, q)] by {
        if q / klen >= r {
            vstd::arithmetic::div_mod::lemma_fundamental_div_mod(q, klen);
            vstd::arithmetic::mul::lemma_mul_is_commutative(klen, r);
            assert(q == idx);
        }
    }
}

impl IrregularTransposition {
    /// The rank sequence the cipher permutes by.
    pub fn rank_sequence(&self) -> (r: Vec<u8>)
        ensures
            r@ == self@,
    {
        let mut r: Vec<u8> = Vec::new();
        r.extend_from_slice(self.tkey.as_slice());
        proof {
            assert(r@ =~= self@);
        }
        r
    }

    /// Creates an irregular transposition directly from a derived key
    /// given as bytes.
    pub(crate) fn new_from_bytes(keyb: &[u8]) -> (c: Self)
        requires
            1 <= keyb@.len() <= 256,
        ensures
            c.wf(),
            c@ == spec_rank(keyb@),
    {
        proof {
            lemma_spec_rank_is_perm(keyb@);
        }
        IrregularTransposition { key: String::new(), tkey: helpers::rank_bytes(keyb) }
    }
}

impl Block for IrregularTransposition {
    open spec fn wf(&self) -> bool {
        &&& 1 <= self@.len() <= 256
        &&& is_perm(self@)
    }

    open spec fn spec_block_size(&self) -> int {
        self@.len() as int
    }

    open spec fn enc_ok(&self, src: Seq<u8>) -> bool {
        src.len() <= usize::MAX - 256
    }

    open spec fn dec_ok(&self, src: Seq<u8>) -> bool {
        src.len() <= usize::MAX - 256
    }

    open spec fn spec_enc(&self, src: Seq<u8>) -> Seq<u8> {
        spec_irr_enc(self@, src)
    }

    open spec fn spec_dec(&self, src: Seq<u8>) -> Seq<u8> {
        spec_irr_dec(self@, src)
    }

    fn block_size(&self) -> (n: usize) {
        self.tkey.len()
    }

    #[verifier::rlimit(100)]
    #[verifier::spinoff_prover]
    fn encrypt(&self, dst: &mut Vec<u8>, src: &[u8]) -> (n: usize) {
        let ghost tk = self.tkey@;
        let ghost out = spec_irr_enc(tk, src@);
        let klen: usize = self.tkey.len();
        let len: usize = src.len();
        if len == 0 {
            proof {
                assert(dst@.subrange(0, 0) =~= out);
                assert(dst@.skip(0) =~= old(dst)@.skip(0));
            }
            return 0;
        }
        let rows: usize = (len + klen - 1) / klen;
        proof {
            lemma_cells_bound(len as int, klen as int);
            lemma_irr_enc_len(tk, src@);
        }
        let cells: usize = rows * klen;
        let mask = self.get_triangular_mask(len);
        let ga = self.fill_grid(&mask, src, rows, cells);
        let grid = ga.0;
        let active = ga.1;
        let mut dst_idx: usize = 0;
        let mut j: usize = 0;
        while j < klen
            invariant
                tk == self.tkey@,
                klen == tk.len(),
                1 <= klen <= 256,
                is_perm(tk),
                len == src@.len(),
                1 <= len,
                rows == n_rows(len as int, klen as int),
                cells == rows as int * klen as int,
                len <= cells,
                out == spec_irr_enc(tk, src@),
                out.len() == len,
                dst@.len() >= len,
                grid@.len() == cells,
                active@.len() == cells,
                forall|q: int|
                    0 <= q < cells ==> active@[q] == is_active(tk, cells as int, len as int, q),
                forall|q: int|
                    0 <= q < cells && active@[q] ==> grid@[q] == src@[fill_pos(
                        tk,
                        cells as int,
                        q,
                    )],
                j <= klen,
                dst_idx <= len,
                dst@.len() == old(dst)@.len(),
                out == dst@.subrange(0, dst_idx as int) + irr_from(src@, tk, rows as int, j as int),
                forall|q: int| dst_idx <= q < dst@.len() ==> dst@[q] == old(dst)@[q],
            decreases klen - j,
        {
            proof {
                lemma_rank_pos(tk, j as int);
            }
            let col: usize = find_rank(&self.tkey, j as u8);
            proof {
                lemma_rank_pos(tk, j as int);
                assert(col as int == rank_pos(tk, j as int));
            }
            let mut r: usize = 0;
            proof {
                assert(irr_from(src@, tk, rows as int, j as int) == col_collect(
                    src@,
                    tk,
                    rows as int,
                    col as int,
                    0,
                ) + irr_from(src@, tk, rows as int, j as int + 1));
            }
            while r < rows
                invariant
                    tk == self.tkey@,
                    klen == tk.len(),
                    1 <= klen <= 256,
                    is_perm(tk),
                    len == src@.len(),
                    1 <= len,
                    rows == n_rows(len as int, klen as int),
                    cells == rows as int * klen as int,
                    len <= cells,
                    out == spec_irr_enc(tk, src@),
                    out.len() == len,
                    dst@.len() >= len,
                    grid@.len() == cells,
                    active@.len() == cells,
                    forall|q: int|
                        0 <= q < cells ==> active@[q] == is_active(
                            tk,
                            cells as int,
                            len as int,
                            q,
                        ),
                    forall|q: int|
                        0 <= q < cells && active@[q] ==> grid@[q] == src@[fill_pos(
                            tk,
                            cells as int,
                            q,
                        )],
                    j < klen,
                    col < klen,
                    r <= rows,
                    dst_idx <= len,
                    dst@.len() == old(dst)@.len(),
                    out == dst@.subrange(0, dst_idx as int) + col_collect(
                        src@,
                        tk,
                        rows as int,
                        col as int,
                        r as int,
                    ) + irr_from(src@, tk, rows as int, j as int + 1),
                    forall|q: int| dst_idx <= q < dst@.len() ==> dst@[q] == old(dst)@[q],
                decreases rows - r,
            {
                proof {
                    lemma_cell(rows as int, klen as int, r as int, col as int);
                }
                let idx: usize = r * klen + col;
                let ghost cc = col_collect(src@, tk, rows as int, col as int, r as int);
                proof {
                    assert(cc == (if is_active(tk, cells as int, len as int, idx as int) {
                        seq![src@[fill_pos(tk, cells as int, idx as int)]]
                    } else {
                        Seq::empty()
                    }) + col_collect(src@, tk, rows as int, col as int, r as int + 1));
                }
                if active[idx] {
                    proof {
                        assert(out.len() == dst_idx + cc.len() + irr_from(
                            src@,
                            tk,
                            rows as int,
                            j as int + 1,
                        ).len());
                        assert(cc.len() >= 1);
                        assert(irr_from(src@, tk, rows as int, j as int + 1).len() >= 0);
                        assert(dst_idx < out.len());
                    }
                    let b: u8 = grid[idx];
                    dst[dst_idx] = b;
                    proof {
                        assert(out == dst@.subrange(0, dst_idx as int + 1) + col_collect(
                            src@,
                            tk,
                            rows as int,
                            col as int,
                            r as int + 1,
                        ) + irr_from(src@, tk, rows as int, j as int + 1)) by {
                            assert(dst@.subrange(0, dst_idx as int + 1) =~= dst@.subrange(
                                0,
                                dst_idx as int,
                            ).push(b));
                            assert(out =~= dst@.subrange(0, dst_idx as int).push(b)
                                + col_collect(src@, tk, rows as int, col as int, r as int + 1)
                                + irr_from(src@, tk, rows as int, j as int + 1));
                        }
                    }
                    dst_idx = dst_idx + 1;
                }
                r = r + 1;
            }
            j = j + 1;
        }
        proof {
            assert(irr_from(src@, tk, rows as int, klen as int) =~= Seq::<u8>::empty());
            assert(out =~= dst@.subrange(0, dst_idx as int));
            assert(dst_idx == len);
            assert(dst@.skip(len as int) =~= old(dst)@.skip(len as int));
        }
        len
    }

    #[verifier::rlimit(100)]
    #[verifier::spinoff_prover]
    fn decrypt(&self, dst: &mut Vec<u8>, src: &[u8]) -> (n: usize) {
        let ghost tk = self.tkey@;
        let ghost out = spec_irr_dec(tk, src@);
        let klen: usize = self.tkey.len();
        let len: usize = src.len();
        if len == 0 {
            proof {
                assert(dst@.subrange(0, 0) =~= out);
                assert(dst@.skip(0) =~= old(dst)@.skip(0));
            }
            return 0;
        }
        let rows: usize = (len + klen - 1) / klen;
        proof {
            lemma_cells_bound(len as int, klen as int);
            lemma_irr_dec_len(tk, src@);
        }
        let cells: usize = rows * klen;
        let mask = self.get_triangular_mask(len);
        let active = self.mark_active(&mask, len, rows, cells);
        proof {
            lemma_act_col_start_total(tk, rows as int, len as int);
        }
        let mut grid: Vec<u8> = vec![0u8; cells];
        let mut src_idx: usize = 0;
        let mut j: usize = 0;
        while j < klen
            invariant
                tk == self.tkey@,
                klen == tk.len(),
                1 <= klen <= 256,
                is_perm(tk),
                len == src@.len(),
                1 <= len,
                rows == n_rows(len as int, klen as int),
                cells == rows as int * klen as int,
                len <= cells,
                active@.len() == cells,
                grid@.len() == cells,
                forall|q: int|
                    0 <= q < cells ==> active@[q] == is_active(tk, cells as int, len as int, q),
                act_col_start(tk, rows as int, len as int, klen as int) == len,
                j <= klen,
                src_idx == act_col_start(tk, rows as int, len as int, j as int),
                0 <= src_idx <= len,
                forall|q: int|
                    0 <= q < cells && active@[q] && (tk[q % (klen as int)] as int) < j
                        ==> grid@[q] == src@[out_pos(tk, rows as int, len as int, q)],
            decreases klen - j,
        {
            proof {
                lemma_rank_pos(tk, j as int);
            }
            let col: usize = find_rank(&self.tkey, j as u8);
            proof {
                lemma_rank_pos(tk, j as int);
                assert(col as int == rank_pos(tk, j as int));
                lemma_act_col_start_mono(tk, rows as int, len as int, j as int + 1, klen as int);
            }
            let mut r: usize = 0;
            while r < rows
                invariant
                    tk == self.tkey@,
                    klen == tk.len(),
                    1 <= klen <= 256,
                    is_perm(tk),
                    len == src@.len(),
                    1 <= len,
                    rows == n_rows(len as int, klen as int),
                    cells == rows as int * klen as int,
                    len <= cells,
                    active@.len() == cells,
                    grid@.len() == cells,
                    forall|q: int|
                        0 <= q < cells ==> active@[q] == is_active(
                            tk,
                            cells as int,
                            len as int,
                            q,
                        ),
                    act_col_start(tk, rows as int, len as int, klen as int) == len,
                    act_col_start(tk, rows as int, len as int, j as int + 1) <= len,
                    act_col_start(tk, rows as int, len as int, j as int + 1) == act_col_start(
                        tk,
                        rows as int,
                        len as int,
                        j as int,
                    ) + act_rows(tk, rows as int, len as int, col as int, rows as int),
                    j < klen,
                    col as int == rank_pos(tk, j as int),
                    col < klen,
                    r <= rows,
                    src_idx == act_col_start(tk, rows as int, len as int, j as int) + act_rows(
                        tk,
                        rows as int,
                        len as int,
                        col as int,
                        r as int,
                    ),
                    0 <= src_idx,
                    forall|q: int|
                        0 <= q < cells && active@[q] && (tk[q % (klen as int)] as int) < j
                            ==> grid@[q] == src@[out_pos(tk, rows as int, len as int, q)],
                    forall|q: int|
                        0 <= q < cells && active@[q] && q % (klen as int) == col && q / (
                        klen as int) < r ==> grid@[q] == src@[out_pos(
                            tk,
                            rows as int,
                            len as int,
                            q,
                        )],
                decreases rows - r,
            {
                proof {
                    lemma_cell(rows as int, klen as int, r as int, col as int);
                    lemma_act_rows_mono(tk, rows as int, len as int, col as int, r as int + 1, rows as int);
                }
                let idx: usize = r * klen + col;
                if active[idx] {
                    proof {
                        assert(act_rows(tk, rows as int, len as int, col as int, r as int + 1)
                            == act_rows(tk, rows as int, len as int, col as int, r as int) + 1);
                        assert(src_idx < len);
                        assert(out_pos(tk, rows as int, len as int, idx as int) == src_idx);
                    }
                    let ghost grid_pre = grid@;
                    grid[idx] = src[src_idx];
                    src_idx = src_idx + 1;
                    proof {
                        assert(grid@ == grid_pre.update(
                            idx as int,
                            src@[out_pos(tk, rows as int, len as int, idx as int)],
                        ));
                        assert forall|q: int|
                            0 <= q < cells && active@[q] && q % (klen as int) == col as int && q
                            / (klen as int) < r as int implies grid_pre[q] == src@[out_pos(
                            tk,
                            rows as int,
                            len as int,
                            q,
                        )] by {}
                        lemma_grid_update(
                            tk,
                            rows as int,
                            len as int,
                            col as int,
                            r as int,
                            src@,
                            active@,
                            grid_pre,
                            grid@,
                        );
                    }
                } else {
                    proof {
                        assert forall|q: int|
                            0 <= q < cells && active@[q] && q % (klen as int) == col as int && q
                            / (klen as int) < r as int + 1 implies grid@[q] == src@[out_pos(
                            tk,
                            rows as int,
                            len as int,
                            q,
                        )] by {
                            if q / (klen as int) >= r as int {
                                vstd::arithmetic::div_mod::lemma_fundamental_div_mod(
                                    q,
                                    klen as int,
                                );
                                vstd::arithmetic::mul::lemma_mul_is_commutative(
                                    klen as int,
                                    r as int,
                                );
                                assert(q == idx as int);
                                assert(false);
                            }
                        }
                    }
                }
                r = r + 1;
            }
            proof {
                assert forall|q: int|
                    0 <= q < cells && active@[q] && (tk[q % (klen as int)] as int) < j
                    + 1 implies grid@[q] == src@[out_pos(tk, rows as int, len as int, q)] by {
                    if (tk[q % (klen as int)] as int) == j {
                        vstd::arithmetic::div_mod::lemma_mod_bound(q, klen as int);
                        lemma_rank_pos(tk, j as int);
                        assert(q % (klen as int) == col);
                        vstd::arithmetic::div_mod::lemma_fundamental_div_mod(q, klen as int);
                        vstd::arithmetic::div_mod::lemma_div_pos_is_pos(q, klen as int);
                        assert(q / (klen as int) < rows) by {
                            if q / (klen as int) >= rows {
                                vstd::arithmetic::mul::lemma_mul_inequality(
                                    rows as int,
                                    q / (klen as int),
                                    klen as int,
                                );
                                vstd::arithmetic::mul::lemma_mul_is_commutative(
                                    klen as int,
                                    q / (klen as int),
                                );
                                vstd::arithmetic::mul::lemma_mul_is_commutative(
                                    rows as int,
                                    klen as int,
                                );
                                assert(false);
                            }
                        }
                    }
                }
            }
            j = j + 1;
        }
        let mut dst_idx: usize = 0;
        let mut p3: usize = 0;
        proof {
            assert(out == ph_collect(src@, tk, rows as int, false, 0) + ph_collect(
                src@,
                tk,
                rows as int,
                true,
                0,
            ));
        }
        while p3 < cells
            invariant
                tk == self.tkey@,
                klen == tk.len(),
                1 <= klen <= 256,
                is_perm(tk),
                len == src@.len(),
                1 <= len,
                rows == n_rows(len as int, klen as int),
                cells == rows as int * klen as int,
                len <= cells,
                out == spec_irr_dec(tk, src@),
                out.len() == len,
                dst@.len() >= len,
                mask@.len() == cells,
                forall|q: int| 0 <= q < cells ==> mask@[q] == tri_at(tk, q),
                active@.len() == cells,
                grid@.len() == cells,
                forall|q: int|
                    0 <= q < cells ==> active@[q] == is_active(tk, cells as int, len as int, q),
                forall|q: int|
                    0 <= q < cells && active@[q] ==> grid@[q] == src@[out_pos(
                        tk,
                        rows as int,
                        len as int,
                        q,
                    )],
                p3 <= cells,
                dst_idx <= len,
                dst@.len() == old(dst)@.len(),
                out == dst@.subrange(0, dst_idx as int) + ph_collect(
                    src@,
                    tk,
                    rows as int,
                    false,
                    p3 as int,
                ) + ph_collect(src@, tk, rows as int, true, 0),
                forall|q: int| dst_idx <= q < dst@.len() ==> dst@[q] == old(dst)@[q],
            decreases cells - p3,
        {
            let ghost ph = ph_collect(src@, tk, rows as int, false, p3 as int);
            proof {
                assert(ph == (if tri_at(tk, p3 as int) == false && is_active(
                    tk,
                    cells as int,
                    len as int,
                    p3 as int,
                ) {
                    seq![src@[out_pos(tk, rows as int, len as int, p3 as int)]]
                } else {
                    Seq::empty()
                }) + ph_collect(src@, tk, rows as int, false, p3 as int + 1));
            }
            if active[p3] && !mask[p3] {
                proof {
                    assert(ph.len() >= 1);
                    assert(ph_collect(src@, tk, rows as int, true, 0).len() >= 0);
                    assert(dst_idx < out.len());
                }
                let b: u8 = grid[p3];
                dst[dst_idx] = b;
                proof {
                    assert(out == dst@.subrange(0, dst_idx as int + 1) + ph_collect(
                        src@,
                        tk,
                        rows as int,
                        false,
                        p3 as int + 1,
                    ) + ph_collect(src@, tk, rows as int, true, 0)) by {
                        assert(dst@.subrange(0, dst_idx as int + 1) =~= dst@.subrange(
                            0,
                            dst_idx as int,
                        ).push(b));
                        assert(out =~= dst@.subrange(0, dst_idx as int).push(b) + ph_collect(
                            src@,
                            tk,
                            rows as int,
                            false,
                            p3 as int + 1,
                        ) + ph_collect(src@, tk, rows as int, true, 0));
                    }
                }
                dst_idx = dst_idx + 1;
            }
            p3 = p3 + 1;
        }
        let mut p4: usize = 0;
        while p4 < cells
            invariant
                tk == self.tkey@,
                klen == tk.len(),
                1 <= klen <= 256,
                is_perm(tk),
                len == src@.len(),
                1 <= len,
                rows == n_rows(len as int, klen as int),
                cells == rows as int * klen as int,
                len <= cells,
                out == spec_irr_dec(tk, src@),
                out.len() == len,
                dst@.len() >= len,
                mask@.len() == cells,
                forall|q: int| 0 <= q < cells ==> mask@[q] == tri_at(tk, q),
                active@.len() == cells,
                grid@.len() == cells,
                forall|q: int|
                    0 <= q < cells ==> active@[q] == is_active(tk, cells as int, len as int, q),
                forall|q: int|
                    0 <= q < cells && active@[q] ==> grid@[q] == src@[out_pos(
                        tk,
                        rows as int,
                        len as int,
                        q,
                    )],
                p4 <= cells,
                dst_idx <= len,
                dst@.len() == old(dst)@.len(),
                out == dst@.subrange(0, dst_idx as int) + ph_collect(
                    src@,
                    tk,
                    rows as int,
                    true,
                    p4 as int,
                ),
                forall|q: int| dst_idx <= q < dst@.len() ==> dst@[q] == old(dst)@[q],
            decreases cells - p4,
        {
            let ghost ph = ph_collect(src@, tk, rows as int, true, p4 as int);
            proof {
                assert(ph == (if tri_at(tk, p4 as int) == true && is_active(
                    tk,
                    cells as int,
                    len as int,
                    p4 as int,
                ) {
                    seq![src@[out_pos(tk, rows as int, len as int, p4 as int)]]
                } else {
                    Seq::empty()
                }) + ph_collect(src@, tk, rows as int, true, p4 as int + 1));
            }
            if active[p4] && mask[p4] {
                proof {
                    assert(ph.len() >= 1);
                    assert(dst_idx < out.len());
                }
                let b: u8 = grid[p4];
                dst[dst_idx] = b;
                proof {
                    assert(out == dst@.subrange(0, dst_idx as int + 1) + ph_collect(
                        src@,
                        tk,
                        rows as int,
                        true,
                        p4 as int + 1,
                    )) by {
                        assert(dst@.subrange(0, dst_idx as int + 1) =~= dst@.subrange(
                            0,
                            dst_idx as int,
                        ).push(b));
                        assert(out =~= dst@.subrange(0, dst_idx as int).push(b) + ph_collect(
                            src@,
                            tk,
                            rows as int,
                            true,
                            p4 as int + 1,
                        ));
                    }
                }
                dst_idx = dst_idx + 1;
            }
            p4 = p4 + 1;
        }
        proof {
            assert(ph_collect(src@, tk, rows as int, true, cells as int) =~= Seq::<u8>::empty());
            assert(out =~= dst@.subrange(0, dst_idx as int));
            assert(dst_idx == len);
            assert(dst@.subrange(0, len as int) =~= out);
            assert(dst@.skip(len as int) =~= old(dst)@.skip(len as int));
        }
        len
    }
}

} // verus!
// The irregular transposition round trip: every active cell's byte comes
// back to its fill position, so decrypting an encrypted buffer restores it.
verus! {

/// Indexing into a collected column: the cell of row `r` stands at its
/// active count.
proof fn lemma_col_collect_index(src: Seq<u8>, tk: Seq<u8>, rows: int, c: int, r0: int, r: int)
    requires
        tk.len() >= 1,
        0 <= r0 <= r < rows,
        is_active(tk, rows * tk.len(), src.len() as int, r * tk.len() + c),
    ensures
        0 <= act_rows(tk, rows, src.len() as int, c, r) - act_rows(tk, rows, src.len() as int, c, r0)
            < col_collect(src, tk, rows, c, r0).len(),
        col_collect(src, tk, rows, c, r0)[act_rows(tk, rows, src.len() as int, c, r) - act_rows(
            tk,
            rows,
            src.len() as int,
            c,
            r0,
        )] == src[fill_pos(tk, rows * tk.len(), r * tk.len() + c)],
    decreases r - r0,
{
    let len = src.len() as int;
    lemma_act_rows_mono(tk, rows, len, c, r0, r);
    lemma_col_collect_len(src, tk, rows, c, r0);
    lemma_col_collect_len(src, tk, rows, c, r0 + 1);
    lemma_act_rows_mono(tk, rows, len, c, r + 1, rows);
    if r0 == r {
        assert(act_rows(tk, rows, len, c, r0 + 1) == act_rows(tk, rows, len, c, r0) + 1);
    } else {
        lemma_act_rows_mono(tk, rows, len, c, r0 + 1, r);
        lemma_col_collect_index(src, tk, rows, c, r0 + 1, r);
    }
}

/// Indexing into the read-out: active cell `p` stands at its output
/// position and holds the byte of its fill position.
proof fn lemma_irr_enc_index(src: Seq<u8>, tk: Seq<u8>, rows: int, j0: int, p: int)
    requires
        tk.len() >= 1,
        is_perm(tk),
        0 <= rows,
        0 <= p < rows * tk.len(),
        0 <= j0 <= (tk[p % (tk.len() as int)] as int),
        is_active(tk, rows * tk.len(), src.len() as int, p),
    ensures
        ({
            let len = src.len() as int;
            let idx = out_pos(tk, rows, len, p) - act_col_start(tk, rows, len, j0);
            0 <= idx < irr_from(src, tk, rows, j0).len() && irr_from(src, tk, rows, j0)[idx]
                == src[fill_pos(tk, rows * tk.len(), p)]
        }),
    decreases tk.len() - j0,
{
    let len = src.len() as int;
    let klen = tk.len() as int;
    vstd::arithmetic::div_mod::lemma_mod_bound(p, klen);
    vstd::arithmetic::div_mod::lemma_fundamental_div_mod(p, klen);
    vstd::arithmetic::div_mod::lemma_div_pos_is_pos(p, klen);
    let c = p % klen;
    let r = p / klen;
    let j = tk[c] as int;
    lemma_rank_pos(tk, j);
    assert(rank_pos(tk, j) == c);
    assert(r < rows) by {
        if r >= rows {
            vstd::arithmetic::mul::lemma_mul_inequality(rows, r, klen);
            vstd::arithmetic::mul::lemma_mul_is_commutative(klen, r);
            vstd::arithmetic::mul::lemma_mul_is_commutative(rows, klen);
        }
    }
    vstd::arithmetic::mul::lemma_mul_is_commutative(klen, r);
    let cj = rank_pos(tk, j0);
    lemma_rank_pos(tk, j0);
    lemma_col_collect_len(src, tk, rows, cj, 0);
    if j0 == j {
        lemma_col_collect_index(src, tk, rows, c, 0, r);
        assert(irr_from(src, tk, rows, j0) == col_collect(src, tk, rows, c, 0) + irr_from(
            src,
            tk,
            rows,
            j0 + 1,
        ));
        assert(out_pos(tk, rows, len, p) == act_col_start(tk, rows, len, j) + act_rows(
            tk,
            rows,
            len,
            c,
            r,
        ));
    } else {
        lemma_irr_enc_index(src, tk, rows, j0 + 1, p);
        assert(irr_from(src, tk, rows, j0) == col_collect(src, tk, rows, cj, 0) + irr_from(
            src,
            tk,
            rows,
            j0 + 1,
        ));
        assert(act_col_start(tk, rows, len, j0 + 1) == act_col_start(tk, rows, len, j0)
            + act_rows(tk, rows, len, cj, rows));
        let idx = out_pos(tk, rows, len, p) - act_col_start(tk, rows, len, j0);
        let idx1 = out_pos(tk, rows, len, p) - act_col_start(tk, rows, len, j0 + 1);
        assert(idx == idx1 + act_rows(tk, rows, len, cj, rows));
    }
}

/// The byte at each output position of the irregular ciphertext comes from
/// the active cell's fill position.
proof fn lemma_irr_enc_at(src: Seq<u8>, tk: Seq<u8>, rows: int, p: int)
    requires
        tk.len() >= 1,
        is_perm(tk),
        src.len() > 0,
        rows == n_rows(src.len() as int, tk.len() as int),
        0 <= p < rows * tk.len(),
        is_active(tk, rows * tk.len(), src.len() as int, p),
    ensures
        0 <= out_pos(tk, rows, src.len() as int, p) < src.len(),
        spec_irr_enc(tk, src)[out_pos(tk, rows, src.len() as int, p)] == src[fill_pos(
            tk,
            rows * tk.len(),
            p,
        )],
{
    let len = src.len() as int;
    let klen = tk.len() as int;
    vstd::arithmetic::div_mod::lemma_mod_bound(p, klen);
    lemma_irr_enc_index(src, tk, rows, 0, p);
    lemma_irr_from_len(src, tk, rows, 0);
    lemma_rows_cover(len, klen);
    lemma_act_col_start_total(tk, rows, len);
}

} // verus!
verus! {

/// `x` capped at `len`.
pub open spec fn cap_at(x: int, len: int) -> int {
    if x <= len {
        x
    } else {
        len
    }
}

/// Reading the non-triangular cells back in row-major order yields the
/// head of the source: their fill positions are consecutive.
proof fn lemma_ph_false(src: Seq<u8>, tk: Seq<u8>, rows: int, p: int)
    requires
        tk.len() >= 1,
        is_perm(tk),
        src.len() > 0,
        rows == n_rows(src.len() as int, tk.len() as int),
        0 <= p <= rows * tk.len(),
    ensures
        ph_collect(spec_irr_enc(tk, src), tk, rows, false, p) == src.subrange(
            cap_at(tri_count(tk, p, false), src.len() as int),
            cap_at(tri_count(tk, rows * tk.len(), false), src.len() as int),
        ),
    decreases rows * tk.len() - p,
{
    let len = src.len() as int;
    let klen = tk.len() as int;
    let cells = rows * klen;
    let y = spec_irr_enc(tk, src);
    lemma_irr_enc_len(tk, src);
    lemma_tri_count_nonneg(tk, p, false);
    lemma_tri_count_nonneg(tk, cells, false);
    lemma_tri_count_mono(tk, p, cells, false);
    if p == cells {
        assert(ph_collect(y, tk, rows, false, p) =~= Seq::<u8>::empty());
        assert(src.subrange(
            cap_at(tri_count(tk, p, false), len),
            cap_at(tri_count(tk, cells, false), len),
        ) =~= Seq::<u8>::empty());
    } else {
        lemma_ph_false(src, tk, rows, p + 1);
        lemma_tri_count_mono(tk, p + 1, cells, false);
        let tc = tri_count(tk, p, false);
        if !tri_at(tk, p) {
            assert(tri_count(tk, p + 1, false) == tc + 1);
            if is_active(tk, cells, len, p) {
                lemma_irr_enc_at(src, tk, rows, p);
                assert(y[out_pos(tk, rows, len, p)] == src[fill_pos(tk, cells, p)]);
                assert(fill_pos(tk, cells, p) == tc);
                assert(ph_collect(y, tk, rows, false, p) =~= src.subrange(
                    cap_at(tc, len),
                    cap_at(tri_count(tk, cells, false), len),
                ));
            } else {
                assert(tc >= len);
                assert(ph_collect(y, tk, rows, false, p) =~= src.subrange(
                    cap_at(tc, len),
                    cap_at(tri_count(tk, cells, false), len),
                ));
            }
        } else {
            assert(tri_count(tk, p + 1, false) == tc);
            assert(ph_collect(y, tk, rows, false, p) =~= ph_collect(y, tk, rows, false, p + 1));
        }
    }
}

/// Reading the triangular cells back in row-major order yields the tail of
/// the source.
proof fn lemma_ph_true(src: Seq<u8>, tk: Seq<u8>, rows: int, p: int)
    requires
        tk.len() >= 1,
        is_perm(tk),
        src.len() > 0,
        rows == n_rows(src.len() as int, tk.len() as int),
        0 <= p <= rows * tk.len(),
    ensures
        ph_collect(spec_irr_enc(tk, src), tk, rows, true, p) == src.subrange(
            cap_at(
                tri_count(tk, rows * tk.len(), false) + tri_count(tk, p, true),
                src.len() as int,
            ),
            src.len() as int,
        ),
    decreases rows * tk.len() - p,
{
    let len = src.len() as int;
    let klen = tk.len() as int;
    let cells = rows * klen;
    let y = spec_irr_enc(tk, src);
    lemma_irr_enc_len(tk, src);
    lemma_tri_count_nonneg(tk, p, true);
    lemma_tri_count_nonneg(tk, cells, false);
    if p == cells {
        lemma_tri_count_split(tk, cells);
        lemma_rows_cover(len, klen);
        assert(tri_count(tk, cells, false) + tri_count(tk, cells, true) == cells >= len);
        assert(ph_collect(y, tk, rows, true, p) =~= Seq::<u8>::empty());
        assert(src.subrange(
            cap_at(tri_count(tk, cells, false) + tri_count(tk, cells, true), len),
            len,
        ) =~= Seq::<u8>::empty());
        assert(tri_count(tk, p, true) == tri_count(tk, cells, true));
    } else {
        lemma_ph_true(src, tk, rows, p + 1);
        let nm = tri_count(tk, cells, false);
        let tc = tri_count(tk, p, true);
        if tri_at(tk, p) {
            assert(tri_count(tk, p + 1, true) == tc + 1);
            if is_active(tk, cells, len, p) {
                lemma_irr_enc_at(src, tk, rows, p);
                assert(y[out_pos(tk, rows, len, p)] == src[fill_pos(tk, cells, p)]);
                assert(fill_pos(tk, cells, p) == nm + tc);
                assert(ph_collect(y, tk, rows, true, p) =~= src.subrange(
                    cap_at(nm + tc, len),
                    len,
                ));
            } else {
                assert(nm + tc >= len);
                assert(ph_collect(y, tk, rows, true, p) =~= src.subrange(
                    cap_at(nm + tc, len),
                    len,
                ));
            }
        } else {
            assert(tri_count(tk, p + 1, true) == tc);
            assert(ph_collect(y, tk, rows, true, p) =~= ph_collect(y, tk, rows, true, p + 1));
        }
    }
}

/// Decrypting an encrypted buffer restores it: the irregular transposition
/// stages are inverses for every permutation key and every source.
pub proof fn lemma_irr_round_trip(tk: Seq<u8>, src: Seq<u8>)
    requires
        tk.len() >= 1,
        is_perm(tk),
    ensures
        spec_irr_dec(tk, spec_irr_enc(tk, src)) == src,
{
    let len = src.len() as int;
    let klen = tk.len() as int;
    if len == 0 {
        assert(spec_irr_enc(tk, src).len() == 0);
        assert(spec_irr_dec(tk, spec_irr_enc(tk, src)) =~= src);
    } else {
        let y = spec_irr_enc(tk, src);
        lemma_irr_enc_len(tk, src);
        let rows = n_rows(len, klen);
        let cells = rows * klen;
        lemma_ph_false(src, tk, rows, 0);
        lemma_ph_true(src, tk, rows, 0);
        lemma_tri_count_nonneg(tk, cells, false);
        assert(tri_count(tk, 0, false) == 0 && tri_count(tk, 0, true) == 0);
        let nm = tri_count(tk, cells, false);
        assert(spec_irr_dec(tk, y) == ph_collect(y, tk, rows, false, 0) + ph_collect(
            y,
            tk,
            rows,
            true,
            0,
        ));
        assert(spec_irr_dec(tk, y) =~= src.subrange(0, cap_at(nm, len)) + src.subrange(
            cap_at(nm, len),
            len,
        ));
        assert(spec_irr_dec(tk, y) =~= src);
    }
}

} // verus!
