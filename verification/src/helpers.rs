//! Shared building blocks for the ciphers: stable numeric ranking of key
//! strings, alphabet condensing and shuffling, digram expansion, and small
//! output-formatting utilities.

use vstd::prelude::*;

verus! {

use vstd::string::StringSliceAdditionalSpecFns;

/// The byte sequence of an ASCII character sequence.
pub open spec fn bytes_of(s: Seq<char>) -> Seq<u8> {
    Seq::new(s.len(), |i: int| s[i] as u8)
}

/// Number of positions `j < n` with `s[j] < v`.
pub open spec fn count_lt(s: Seq<u8>, v: u8, n: int) -> int
    decreases n,
{
    if n <= 0 || n > s.len() {
        0
    } else {
        count_lt(s, v, n - 1) + if s[n - 1] < v {
            1int
        } else {
            0int
        }
    }
}

/// Number of positions `j < n` with `s[j] == v`.
pub open spec fn count_eq(s: Seq<u8>, v: u8, n: int) -> int
    decreases n,
{
    if n <= 0 || n > s.len() {
        0
    } else {
        count_eq(s, v, n - 1) + if s[n - 1] == v {
            1int
        } else {
            0int
        }
    }
}

/// The stable rank of the byte at position `i`: its position in a stable
/// sort of `s`, with ties broken by original position.
pub open spec fn rank_at(s: Seq<u8>, i: int) -> int {
    count_lt(s, s[i], s.len() as int) + count_eq(s, s[i], i)
}

/// The rank sequence of a key: a permutation of `0..len` in which each
/// position receives its stable-sort rank.
pub open spec fn spec_rank(s: Seq<u8>) -> Seq<u8> {
    Seq::new(s.len(), |i: int| rank_at(s, i) as u8)
}

proof fn lemma_count_lt_le(s: Seq<u8>, v: u8, n: int)
    requires
        0 <= n <= s.len(),
    ensures
        0 <= count_lt(s, v, n) <= n,
    decreases n,
{
    if n > 0 {
        lemma_count_lt_le(s, v, n - 1);
    }
}

proof fn lemma_count_eq_le(s: Seq<u8>, v: u8, n: int)
    requires
        0 <= n <= s.len(),
    ensures
        0 <= count_eq(s, v, n) <= n,
    decreases n,
{
    if n > 0 {
        lemma_count_eq_le(s, v, n - 1);
    }
}

/// Every element below `n` is counted either by `count_lt` or by `count_eq`
/// or is strictly greater, so the two counts never exceed `n` together.
proof fn lemma_count_lt_eq_le(s: Seq<u8>, v: u8, n: int)
    requires
        0 <= n <= s.len(),
    ensures
        0 <= count_lt(s, v, n) + count_eq(s, v, n) <= n,
    decreases n,
{
    if n > 0 {
        lemma_count_lt_eq_le(s, v, n - 1);
    }
}

/// A rank is always less than the key length.
pub proof fn lemma_rank_bound(s: Seq<u8>, i: int)
    requires
        0 <= i < s.len(),
    ensures
        0 <= rank_at(s, i) < s.len(),
{
    let n = s.len() as int;
    let v = s[i];
    lemma_count_lt_le(s, v, n);
    lemma_count_eq_le(s, v, i);
    lemma_count_lt_eq_le(s, v, i);
    assert(count_eq(s, v, i + 1) == count_eq(s, v, i) + 1);
    lemma_count_split(s, v, i + 1, n);
    lemma_count_split(s, v, i, i + 1);
}

/// Counts are monotone in the bound, and between two bounds the growth of
/// `count_eq` is limited by the distance.
proof fn lemma_count_split(s: Seq<u8>, v: u8, m: int, n: int)
    requires
        0 <= m <= n <= s.len(),
    ensures
        count_lt(s, v, m) <= count_lt(s, v, n),
        count_eq(s, v, m) <= count_eq(s, v, n),
        count_lt(s, v, n) - count_lt(s, v, m) + count_eq(s, v, n) - count_eq(s, v, m) <= n - m,
    decreases n - m,
{
    if m < n {
        lemma_count_split(s, v, m, n - 1);
    }
}

/// Converts a key string into its stable-rank permutation: each byte's rank
/// is its 0-based position in a stable sort of the key's bytes, with equal
/// bytes keeping their left-to-right order.
pub fn to_numeric(key: &str) -> (r: Vec<u8>)
    requires
        key.spec_bytes().len() <= 256,
    ensures
        r@ == spec_rank(key.spec_bytes()),
{
    rank_bytes(key.as_bytes())
}

/// Converts a key given as bytes into its stable-rank permutation.
pub fn rank_bytes(letters: &[u8]) -> (r: Vec<u8>)
    requires
        letters@.len() <= 256,
    ensures
        r@ == spec_rank(letters@),
{
    let s = Ghost(letters@);
    let n: usize = letters.len();
    let mut ar: Vec<u8> = Vec::new();
    let mut i: usize = 0;
    while i < n
        invariant
            s@ == letters@,
            n == s@.len() <= 256,
            letters@ == s@,
            i <= n,
            ar@.len() == i,
            forall|k: int| 0 <= k < i ==> ar@[k] == rank_at(s@, k) as u8,
        decreases n - i,
    {
        let v: u8 = letters[i];
        let mut lt: usize = 0;
        let mut eq: usize = 0;
        let mut j: usize = 0;
        while j < n
            invariant
                s@ == letters@,
                n == s@.len() <= 256,
                letters@ == s@,
                i < n,
                j <= n,
                v == s@[i as int],
                lt == count_lt(s@, v, j as int),
                eq == count_eq(s@, v, if j <= i { j as int } else { i as int }),
            decreases n - j,
        {
            proof {
                lemma_count_lt_le(s@, v, j as int);
                lemma_count_eq_le(s@, v, if j <= i { j as int } else { i as int });
            }
            if letters[j] < v {
                lt = lt + 1;
            } else if letters[j] == v && j < i {
                eq = eq + 1;
            }
            j = j + 1;
        }
        proof {
            lemma_rank_bound(s@, i as int);
        }
        ar.push((lt + eq) as u8);
        i = i + 1;
    }
    proof {
        assert(ar@ =~= spec_rank(s@));
    }
    ar
}

/// The sequence obtained by keeping only the first occurrence of each byte.
pub open spec fn spec_condense(s: Seq<u8>) -> Seq<u8>
    decreases s.len(),
{
    if s.len() == 0 {
        Seq::empty()
    } else if s.drop_last().contains(s.last()) {
        spec_condense(s.drop_last())
    } else {
        spec_condense(s.drop_last()).push(s.last())
    }
}

/// The condensed sequence contains exactly the bytes of the original.
pub proof fn lemma_condense_contains(s: Seq<u8>, v: u8)
    ensures
        spec_condense(s).contains(v) <==> s.contains(v),
    decreases s.len(),
{
    if s.len() > 0 {
        lemma_condense_contains(s.drop_last(), v);
        let c = spec_condense(s);
        let cp = spec_condense(s.drop_last());
        if s.contains(v) {
            let i = choose|i: int| 0 <= i < s.len() && s[i] == v;
            if i < s.len() - 1 {
                assert(s.drop_last()[i] == v);
                assert(s.drop_last().contains(v));
            } else {
                assert(v == s.last());
                if s.drop_last().contains(s.last()) {
                    assert(cp.contains(v));
                } else {
                    assert(c[c.len() - 1] == v);
                }
            }
            assert(c.contains(v)) by {
                if cp.contains(v) {
                    let k = choose|k: int| 0 <= k < cp.len() && cp[k] == v;
                    if s.drop_last().contains(s.last()) {
                        assert(c[k] == v);
                    } else {
                        assert(c[k] == v);
                    }
                }
            }
        }
        if c.contains(v) {
            let k = choose|k: int| 0 <= k < c.len() && c[k] == v;
            if s.drop_last().contains(s.last()) {
                assert(cp[k] == v);
                assert(s.drop_last().contains(v));
                let i = choose|i: int| 0 <= i < s.drop_last().len() && s.drop_last()[i] == v;
                assert(s[i] == v);
            } else {
                if k < c.len() - 1 {
                    assert(cp[k] == v);
                    assert(cp.contains(v));
                    let i = choose|i: int| 0 <= i < s.drop_last().len() && s.drop_last()[i] == v;
                    assert(s[i] == v);
                } else {
                    assert(v == s.last());
                    assert(s[s.len() - 1] == v);
                }
            }
            assert(s.contains(v));
        }
    }
}

/// Condensing never repeats a byte.
pub proof fn lemma_condense_unique(s: Seq<u8>)
    ensures
        forall|p: int, q: int|
            0 <= p < q < spec_condense(s).len() ==> spec_condense(s)[p] != spec_condense(s)[q],
    decreases s.len(),
{
    if s.len() > 0 {
        lemma_condense_unique(s.drop_last());
        lemma_condense_contains(s.drop_last(), s.last());
        let c = spec_condense(s);
        let cp = spec_condense(s.drop_last());
        if !s.drop_last().contains(s.last()) {
            assert forall|p: int, q: int| 0 <= p < q < c.len() implies c[p] != c[q] by {
                if q < c.len() - 1 {
                    assert(cp[p] == c[p] && cp[q] == c[q]);
                } else {
                    assert(c[q] == s.last());
                    assert(cp.contains(cp[p]));
                }
            }
        }
    }
}

pub(crate) fn condense_bytes(s: &[u8]) -> (r: Vec<u8>)
    ensures
        r@ == spec_condense(s@),
{
    let mut seen: Vec<bool> = vec![false; 256];
    let mut res: Vec<u8> = Vec::new();
    let n: usize = s.len();
    let mut i: usize = 0;
    while i < n
        invariant
            n == s@.len(),
            i <= n,
            seen@.len() == 256,
            res@ == spec_condense(s@.take(i as int)),
            forall|b: u8| seen@[b as int] <==> s@.take(i as int).contains(b),
        decreases n - i,
    {
        let ch: u8 = s[i];
        let ghost pre = s@.take(i as int);
        let ghost cur = s@.take(i as int + 1);
        proof {
            assert(cur.drop_last() =~= pre);
            assert(cur.last() == s@[i as int]);
        }
        if !seen[ch as usize] {
            res.push(ch);
            seen[ch as usize] = true;
        }
        proof {
            assert forall|b: u8| seen@[b as int] <==> cur.contains(b) by {
                if b == ch {
                    assert(cur[i as int] == ch);
                } else {
                    assert(cur.contains(b) <==> pre.contains(b)) by {
                        if cur.contains(b) {
                            let k = choose|k: int| 0 <= k < cur.len() && cur[k] == b;
                            assert(pre[k] == b);
                        }
                        if pre.contains(b) {
                            let k = choose|k: int| 0 <= k < pre.len() && pre[k] == b;
                            assert(cur[k] == b);
                        }
                    }
                }
            }
        }
        i = i + 1;
    }
    proof {
        assert(s@.take(n as int) =~= s@);
    }
    res
}

/// Relies on String::from_utf8: a buffer of ASCII bytes is valid UTF-8 and
/// converts to the string whose characters are exactly those bytes.
#[verifier::external_body]
pub(crate) fn ascii_to_string(v: Vec<u8>) -> (r: String)
    requires
        forall|i: int| 0 <= i < v@.len() ==> v@[i] < 128,
    ensures
        r@.len() == v@.len(),
        bytes_of(r@) == v@,
        r.is_ascii(),
{
    String::from_utf8(v).unwrap()
}

/// For an ASCII string the UTF-8 bytes are the characters themselves.
pub proof fn lemma_ascii_bytes(s: &str)
    requires
        s.is_ascii(),
    ensures
        s.spec_bytes() == bytes_of(s@),
        s.spec_bytes().len() == s@.len(),
        forall|i: int| 0 <= i < s.spec_bytes().len() ==> s.spec_bytes()[i] < 128,
{
    broadcast use vstd::string::is_ascii_spec_bytes;

    vstd::utf8::is_ascii_chars_nat_bound(s@);
    assert(s.spec_bytes() =~= bytes_of(s@));
}

proof fn lemma_condense_ascii(s: Seq<u8>)
    requires
        forall|i: int| 0 <= i < s.len() ==> s[i] < 128,
    ensures
        forall|i: int| 0 <= i < spec_condense(s).len() ==> spec_condense(s)[i] < 128,
    decreases s.len(),
{
    if s.len() > 0 {
        assert(forall|i: int| 0 <= i < s.drop_last().len() ==> s.drop_last()[i] < 128);
        lemma_condense_ascii(s.drop_last());
        let c = spec_condense(s);
        let cp = spec_condense(s.drop_last());
        assert forall|i: int| 0 <= i < c.len() implies c[i] < 128 by {
            if !s.drop_last().contains(s.last()) && i == c.len() - 1 {
                assert(c[i] == s.last());
                assert(s[s.len() - 1] < 128);
            } else {
                assert(c[i] == cp[i]);
            }
        }
    }
}

/// Removes all duplicate characters from a string, preserving the first
/// occurrence of each.
pub fn condense(text: &str) -> (r: String)
    requires
        text.is_ascii(),
    ensures
        bytes_of(r@) == spec_condense(text.spec_bytes()),
        r.is_ascii(),
{
    proof {
        lemma_ascii_bytes(text);
        lemma_condense_ascii(text.spec_bytes());
    }
    let v = condense_bytes(text.as_bytes());
    ascii_to_string(v)
}

/// Removes all duplicate characters from a string; same result as
/// [`condense`], kept as the table-driven variant of the original API.
pub fn condense_str(s: &str) -> (r: String)
    requires
        s.is_ascii(),
    ensures
        bytes_of(r@) == spec_condense(s.spec_bytes()),
        r.is_ascii(),
{
    condense(s)
}

/// Inserts one byte into a copy of the array at the given position.
pub fn insert(src: &[u8], obj: u8, ind: usize) -> (r: Vec<u8>)
    requires
        ind <= src@.len(),
    ensures
        r@ == src@.take(ind as int).push(obj) + src@.skip(ind as int),
{
    let mut dst: Vec<u8> = Vec::new();
    let mut i: usize = 0;
    while i < ind
        invariant
            ind <= src@.len(),
            i <= ind,
            dst@ == src@.take(i as int),
        decreases ind - i,
    {
        dst.push(src[i]);
        proof {
            assert(dst@ =~= src@.take(i + 1));
        }
        i = i + 1;
    }
    dst.push(obj);
    let n: usize = src.len();
    let mut j: usize = ind;
    while j < n
        invariant
            ind <= n == src@.len(),
            ind <= j <= n,
            dst@ == src@.take(ind as int).push(obj) + src@.subrange(ind as int, j as int),
        decreases n - j,
    {
        dst.push(src[j]);
        proof {
            assert(dst@ =~= src@.take(ind as int).push(obj) + src@.subrange(ind as int, j + 1));
        }
        j = j + 1;
    }
    proof {
        assert(src@.subrange(ind as int, n as int) =~= src@.skip(ind as int));
    }
    dst
}

/// The digram expansion of a byte sequence: scanning two bytes at a time,
/// a filler `X` is inserted between the two bytes of an equal pair, and the
/// scan resumes right after the inserted filler.
pub open spec fn spec_expand(s: Seq<u8>) -> Seq<u8>
    decreases s.len(),
{
    if s.len() < 2 {
        s
    } else if s[0] == s[1] {
        seq![s[0], 88u8] + spec_expand(s.skip(1))
    } else {
        seq![s[0], s[1]] + spec_expand(s.skip(2))
    }
}

/// Expands a byte slice by inserting `b'X'` between consecutive duplicate
/// characters, processing the input as digrams.
pub fn expand(src: &[u8]) -> (r: Vec<u8>)
    ensures
        r@ == spec_expand(src@),
{
    let mut res: Vec<u8> = Vec::new();
    let n: usize = src.len();
    let mut i: usize = 0;
    proof {
        assert(src@.skip(0) =~= src@);
        assert(res@ + spec_expand(src@) =~= spec_expand(src@));
    }
    while i < n
        invariant
            n == src@.len(),
            i <= n,
            res@ + spec_expand(src@.skip(i as int)) == spec_expand(src@),
        decreases n - i,
    {
        let ghost rest = src@.skip(i as int);
        if i + 1 < n && src[i] == src[i + 1] {
            proof {
                assert(rest[0] == src@[i as int] && rest[1] == src@[i + 1]);
                assert(rest.skip(1) =~= src@.skip(i + 1));
            }
            res.push(src[i]);
            res.push(88u8);
            i = i + 1;
        } else if i + 1 < n {
            proof {
                assert(rest[0] == src@[i as int] && rest[1] == src@[i + 1]);
                assert(rest.skip(2) =~= src@.skip(i + 2));
            }
            res.push(src[i]);
            res.push(src[i + 1]);
            i = i + 2;
        } else {
            proof {
                assert(rest.len() == 1);
                assert(rest =~= seq![src@[i as int]]);
            }
            res.push(src[i]);
            i = i + 1;
        }
    }
    proof {
        assert(src@.skip(n as int) =~= Seq::<u8>::empty());
        assert(res@ =~= res@ + Seq::<u8>::empty());
    }
    res
}

/// The blocked rendering of a sequence: a space before every `n`-th byte.
pub open spec fn spec_by_n(s: Seq<u8>, n: int, i: int) -> Seq<u8>
    decreases s.len() - i,
{
    if i < 0 || i >= s.len() || n <= 0 {
        Seq::empty()
    } else if i > 0 && i % n == 0 {
        seq![32u8, s[i]] + spec_by_n(s, n, i + 1)
    } else {
        seq![s[i]] + spec_by_n(s, n, i + 1)
    }
}

/// Groups a string into blocks of `n` characters separated by spaces.
pub fn by_n(ct: &str, n: usize) -> (r: String)
    requires
        ct.is_ascii(),
        n >= 1,
    ensures
        bytes_of(r@) == spec_by_n(ct.spec_bytes(), n as int, 0),
        r.is_ascii(),
{
    proof {
        lemma_ascii_bytes(ct);
    }
    let s: &[u8] = ct.as_bytes();
    let len: usize = s.len();
    let mut out: Vec<u8> = Vec::new();
    let mut i: usize = 0;
    while i < len
        invariant
            s@ == ct.spec_bytes(),
            len == s@.len(),
            n >= 1,
            i <= len,
            forall|k: int| 0 <= k < s@.len() ==> s@[k] < 128,
            forall|k: int| 0 <= k < out@.len() ==> out@[k] < 128,
            out@ + spec_by_n(s@, n as int, i as int) == spec_by_n(s@, n as int, 0),
        decreases len - i,
    {
        if i > 0 && i % n == 0 {
            out.push(32u8);
        }
        out.push(s[i]);
        i = i + 1;
    }
    proof {
        assert(spec_by_n(s@, n as int, len as int) =~= Seq::<u8>::empty());
        assert(out@ =~= out@ + Seq::<u8>::empty());
    }
    ascii_to_string(out)
}

/// Formats a string into blocks of 5 characters separated by spaces.
pub fn output_as_block(input: &str) -> (r: String)
    requires
        input.is_ascii(),
    ensures
        bytes_of(r@) == spec_by_n(input.spec_bytes(), 5, 0),
        r.is_ascii(),
{
    by_n(input, 5)
}

/// The double-letter fix: a filler byte is placed between every pair of
/// adjacent equal bytes.
pub open spec fn spec_fix_double(s: Seq<u8>, fill: u8) -> Seq<u8>
    decreases s.len(),
{
    if s.len() == 0 {
        Seq::empty()
    } else if s.len() >= 2 && s[s.len() - 2] == s[s.len() - 1] {
        spec_fix_double(s.drop_last(), fill).push(fill).push(s.last())
    } else {
        spec_fix_double(s.drop_last(), fill).push(s.last())
    }
}

/// Replaces every adjacent pair of equal characters `NN` with `NqN`, where
/// `q` is the given fill character.
pub fn fix_double(text: &str, fill: char) -> (r: String)
    requires
        text.is_ascii(),
        (fill as u32) < 128,
    ensures
        bytes_of(r@) == spec_fix_double(text.spec_bytes(), (fill as u32) as u8),
        r.is_ascii(),
{
    proof {
        lemma_ascii_bytes(text);
    }
    let s: &[u8] = text.as_bytes();
    let fill_b: u8 = (fill as u32) as u8;
    let len: usize = s.len();
    let mut out: Vec<u8> = Vec::new();
    let mut i: usize = 0;
    while i < len
        invariant
            s@ == text.spec_bytes(),
            len == s@.len(),
            i <= len,
            fill_b == (fill as u32) as u8,
            fill_b < 128,
            forall|k: int| 0 <= k < s@.len() ==> s@[k] < 128,
            forall|k: int| 0 <= k < out@.len() ==> out@[k] < 128,
            out@ == spec_fix_double(s@.take(i as int), fill_b),
        decreases len - i,
    {
        let ghost cur = s@.take(i as int + 1);
        proof {
            assert(cur.drop_last() =~= s@.take(i as int));
            assert(cur.last() == s@[i as int]);
        }
        if i > 0 && s[i] == s[i - 1] {
            out.push(fill_b);
        }
        out.push(s[i]);
        i = i + 1;
    }
    proof {
        assert(s@.take(len as int) =~= s@);
    }
    ascii_to_string(out)
}

} // verus!
// The keyword columnar shuffle and its model live below.  The model walks
// the same two nested counters as the code: the outer counter runs down the
// condensed key length, the inner counter up to the grid height, and each
// step either stops early (when too few letters remain), extracts the
// letter at `i * j`, or moves on.
verus! {

/// Saturating decrement used by the shuffle's early-exit test.
pub open spec fn sat1(h: int) -> int {
    if h > 0 {
        h - 1
    } else {
        0
    }
}

/// The letters still to be produced by the shuffle, starting from outer
/// counter `i` (counting down) and inner counter `j` (counting up), with
/// `word` the letters not yet extracted.
pub open spec fn shuffle_rounds(word: Seq<u8>, height: int, i: int, j: int) -> Seq<u8>
    decreases i + 1, height + 1 - j,
{
    if i < 0 || j < 0 {
        Seq::empty()
    } else if j > height {
        shuffle_rounds(word, height, i - 1, 0)
    } else if word.len() <= sat1(height) {
        word
    } else if i * j < word.len() {
        seq![word[i * j]] + shuffle_rounds(word.remove(i * j), height, i, j + 1)
    } else {
        shuffle_rounds(word, height, i, j + 1)
    }
}

/// The height of the shuffle rectangle: the alphabet length divided by the
/// condensed key length, rounded up.
pub open spec fn shuffle_height(alen: int, length: int) -> int {
    if alen % length != 0 {
        alen / length + 1
    } else {
        alen / length
    }
}

/// The keyword columnar shuffle of an alphabet: the duplicate-free merge of
/// key and alphabet, read out by strides of the condensed key length.
pub open spec fn spec_shuffle(keyb: Seq<u8>, alphab: Seq<u8>) -> Seq<u8> {
    let word = spec_condense(keyb + alphab);
    let length = spec_condense(keyb).len() as int;
    if length <= 0 {
        Seq::empty()
    } else {
        shuffle_rounds(word, shuffle_height(alphab.len() as int, length), length - 1, 0)
    }
}

/// Condensing never lengthens a sequence.
pub proof fn lemma_condense_len(s: Seq<u8>)
    ensures
        spec_condense(s).len() <= s.len(),
    decreases s.len(),
{
    if s.len() > 0 {
        lemma_condense_len(s.drop_last());
    }
}

/// A non-empty sequence condenses to a non-empty sequence.
pub proof fn lemma_condense_nonempty(s: Seq<u8>)
    requires
        s.len() > 0,
    ensures
        spec_condense(s).len() > 0,
{
    assert(s.contains(s[0]));
    lemma_condense_contains(s, s[0]);
    assert(spec_condense(s).contains(s[0]));
}

fn shuffle_bytes(keyb: &[u8], alphab: &[u8]) -> (r: Vec<u8>)
    requires
        keyb@.len() > 0,
        keyb@.len() <= 100000000,
        alphab@.len() <= 100000000,
        forall|k: int| 0 <= k < keyb@.len() ==> keyb@[k] < 128,
        forall|k: int| 0 <= k < alphab@.len() ==> alphab@[k] < 128,
    ensures
        r@ == spec_shuffle(keyb@, alphab@),
        forall|k: int| 0 <= k < r@.len() ==> r@[k] < 128,
{
    let mut combined: Vec<u8> = Vec::new();
    combined.extend_from_slice(keyb);
    combined.extend_from_slice(alphab);
    proof {
        assert(combined@ =~= keyb@ + alphab@);
    }
    let mut word = condense_bytes(combined.as_slice());
    let ckey = condense_bytes(keyb);
    let length: usize = ckey.len();
    proof {
        lemma_condense_nonempty(keyb@);
        lemma_condense_len(keyb@);
        lemma_condense_len(keyb@ + alphab@);
        lemma_condense_ascii(keyb@ + alphab@);
    }
    let alen: usize = alphab.len();
    let mut height: usize = alen / length;
    if alen % length != 0 {
        height = height + 1;
    }
    proof {
        assert(alen as int / length as int <= alen as int) by (nonlinear_arith)
            requires
                length as int >= 1,
                alen as int >= 0,
        ;
    }
    let ghost target = spec_shuffle(keyb@, alphab@);
    let mut res: Vec<u8> = Vec::new();
    let mut oi: usize = length;
    while oi > 0
        invariant
            height == shuffle_height(alphab@.len() as int, spec_condense(keyb@).len() as int),
            height <= 100000001,
            length <= 100000000,
            oi <= length,
            target == spec_shuffle(keyb@, alphab@),
            word@.len() <= 200000000,
            forall|k: int| 0 <= k < word@.len() ==> word@[k] < 128,
            forall|k: int| 0 <= k < res@.len() ==> res@[k] < 128,
            res@ + shuffle_rounds(word@, height as int, oi as int - 1, 0) == target,
        decreases oi,
    {
        let i: usize = oi - 1;
        let mut j: usize = 0;
        while j <= height
            invariant
                height <= 100000001,
                length <= 100000000,
                i < length,
                j <= height + 1,
                target == spec_shuffle(keyb@, alphab@),
                word@.len() <= 200000000,
                forall|k: int| 0 <= k < word@.len() ==> word@[k] < 128,
                forall|k: int| 0 <= k < res@.len() ==> res@[k] < 128,
                res@ + shuffle_rounds(word@, height as int, i as int, j as int) == target,
            decreases height + 1 - j,
        {
            let cutoff: usize = if height > 0 {
                height - 1
            } else {
                0
            };
            if word.len() <= cutoff {
                proof {
                    assert(shuffle_rounds(word@, height as int, i as int, j as int) == word@);
                    assert(word@.skip(0) =~= word@);
                }
                let mut k: usize = 0;
                while k < word.len()
                    invariant
                        k <= word@.len(),
                        target == spec_shuffle(keyb@, alphab@),
                        forall|t: int| 0 <= t < word@.len() ==> word@[t] < 128,
                        forall|t: int| 0 <= t < res@.len() ==> res@[t] < 128,
                        res@ + word@.skip(k as int) == target,
                    decreases word@.len() - k,
                {
                    let c = word[k];
                    proof {
                        assert(word@.skip(k as int) =~= seq![word@[k as int]] + word@.skip(
                            k as int + 1,
                        ));
                    }
                    res.push(c);
                    k = k + 1;
                }
                proof {
                    assert(word@.skip(word@.len() as int) =~= Seq::<u8>::empty());
                    assert(res@ =~= res@ + Seq::<u8>::empty());
                    assert(res@ == target);
                    assert(target == spec_shuffle(keyb@, alphab@));
                }
                return res;
            }
            proof {
                assert((i as int) * (j as int) <= 100000000int * 100000002int)
                    by (nonlinear_arith)
                    requires
                        0 <= i as int <= 100000000int,
                        0 <= j as int <= 100000002int,
                ;
            }
            let iju: u64 = (i as u64) * (j as u64);
            if iju < word.len() as u64 {
                let idx: usize = i * j;
                let ghost oldword = word@;
                let c = word.remove(idx);
                proof {
                    assert(shuffle_rounds(oldword, height as int, i as int, j as int) == seq![
                        oldword[idx as int],
                    ] + shuffle_rounds(word@, height as int, i as int, j as int + 1));
                }
                res.push(c);
            } else {
                proof {
                    assert(shuffle_rounds(word@, height as int, i as int, j as int)
                        == shuffle_rounds(word@, height as int, i as int, j as int + 1));
                }
            }
            j = j + 1;
        }
        proof {
            assert(shuffle_rounds(word@, height as int, i as int, j as int) == shuffle_rounds(
                word@,
                height as int,
                i as int - 1,
                0,
            ));
        }
        oi = oi - 1;
    }
    proof {
        assert(shuffle_rounds(word@, height as int, -1, 0) =~= Seq::<u8>::empty());
        assert(res@ =~= res@ + Seq::<u8>::empty());
    }
    res
}

/// Shuffles an alphabet with a keyword: the concatenation of key and
/// alphabet is condensed and then read out in strides keyed by the word
/// itself, producing the mixed alphabet used by the checkerboard ciphers.
pub fn shuffle(key: &str, alphabet: &str) -> (r: String)
    requires
        key.is_ascii(),
        alphabet.is_ascii(),
        key@.len() > 0,
        key@.len() <= 100000000,
        alphabet@.len() <= 100000000,
    ensures
        bytes_of(r@) == spec_shuffle(key.spec_bytes(), alphabet.spec_bytes()),
        r.is_ascii(),
{
    proof {
        lemma_ascii_bytes(key);
        lemma_ascii_bytes(alphabet);
    }
    let v = shuffle_bytes(key.as_bytes(), alphabet.as_bytes());
    ascii_to_string(v)
}

/// Shuffles an alphabet with a keyword; same result as [`shuffle`], kept as
/// the index-tracking variant of the original API.
pub fn shuffle_next(key: &str, alphabet: &str) -> (r: String)
    requires
        key.is_ascii(),
        alphabet.is_ascii(),
        key@.len() > 0,
        key@.len() <= 100000000,
        alphabet@.len() <= 100000000,
    ensures
        bytes_of(r@) == spec_shuffle(key.spec_bytes(), alphabet.spec_bytes()),
        r.is_ascii(),
{
    shuffle(key, alphabet)
}

} // verus!
// The rank sequence is a permutation of `0..len`: the lemmas below give
// injectivity and surjectivity, which the transposition stages rely on to
// locate each column exactly once.
verus! {

/// Everything counted below `u` (strictly smaller or equal) is strictly
/// smaller than any `v > u`.
proof fn lemma_count_lt_trans(s: Seq<u8>, u: u8, v: u8, n: int)
    requires
        u < v,
        0 <= n <= s.len(),
    ensures
        count_lt(s, u, n) + count_eq(s, u, n) <= count_lt(s, v, n),
    decreases n,
{
    if n > 0 {
        lemma_count_lt_trans(s, u, v, n - 1);
    }
}

/// Distinct positions receive distinct ranks.
pub proof fn lemma_rank_injective(s: Seq<u8>, i: int, j: int)
    requires
        0 <= i < s.len(),
        0 <= j < s.len(),
        i != j,
    ensures
        rank_at(s, i) != rank_at(s, j),
{
    let n = s.len() as int;
    let u = s[i];
    let v = s[j];
    if u == v {
        let (lo, hi) = if i < j {
            (i, j)
        } else {
            (j, i)
        };
        assert(count_eq(s, u, lo + 1) == count_eq(s, u, lo) + 1);
        lemma_count_split(s, u, lo + 1, hi);
    } else {
        let (lo, hi, a, b) = if u < v {
            (i, j, u, v)
        } else {
            (j, i, v, u)
        };
        // rank(lo) < count_lt(b) <= rank(hi)
        assert(count_eq(s, a, lo + 1) == count_eq(s, a, lo) + 1);
        lemma_count_split(s, a, lo + 1, n);
        lemma_count_lt_trans(s, a, b, n);
        lemma_count_eq_le(s, b, hi);
        lemma_count_split(s, b, hi, n);
    }
}

/// The set of ranks taken by the first `k` positions.
spec fn rank_image(s: Seq<u8>, k: int) -> Set<int>
    decreases k,
{
    if k <= 0 {
        Set::empty()
    } else {
        rank_image(s, k - 1).insert(rank_at(s, k - 1))
    }
}

proof fn lemma_rank_image(s: Seq<u8>, k: int)
    requires
        0 <= k <= s.len(),
    ensures
        rank_image(s, k).finite(),
        rank_image(s, k).len() == k,
        forall|r: int| rank_image(s, k).contains(r) <==> exists|i: int|
            0 <= i < k && rank_at(s, i) == r,
    decreases k,
{
    if k > 0 {
        lemma_rank_image(s, k - 1);
        let r = rank_at(s, k - 1);
        assert(!rank_image(s, k - 1).contains(r)) by {
            if rank_image(s, k - 1).contains(r) {
                let i = choose|i: int| 0 <= i < k - 1 && rank_at(s, i) == r;
                lemma_rank_injective(s, i, k - 1);
            }
        }
        assert forall|t: int| rank_image(s, k).contains(t) implies exists|i: int|
            0 <= i < k && rank_at(s, i) == t by {
            if t == r {
                assert(rank_at(s, k - 1) == t);
            }
        }
    }
}

/// Every rank below the key length is taken by some position.
pub proof fn lemma_rank_surjective(s: Seq<u8>, r: int)
    requires
        0 <= r < s.len(),
    ensures
        exists|i: int| 0 <= i < s.len() && rank_at(s, i) == r,
{
    let n = s.len() as int;
    lemma_rank_image(s, n);
    let img = rank_image(s, n);
    let range = vstd::set_lib::set_int_range(0, n);
    vstd::set_lib::lemma_int_range(0, n);
    assert(img.subset_of(range)) by {
        assert forall|t: int| img.contains(t) implies range.contains(t) by {
            let i = choose|i: int| 0 <= i < n && rank_at(s, i) == t;
            lemma_rank_bound(s, i);
        }
    }
    if !img.contains(r) {
        img.lemma_subset_not_in_lt(range, r);
        assert(img.len() < range.len());
        assert(false);
    }
}

} // verus!
// The laws of the rank utility: ties are broken by original position, so a
// key of equal letters ranks as the identity, and a key of distinct
// letters ranks each letter by the number of strictly smaller letters --
// the inverse of the alphabetical permutation.
verus! {

proof fn lemma_count_lt_none(s: Seq<u8>, v: u8, n: int)
    requires
        0 <= n <= s.len(),
        s.len() > 0,
        v == s[0],
        forall|i: int, j: int| 0 <= i < s.len() && 0 <= j < s.len() ==> s[i] == s[j],
    ensures
        count_lt(s, v, n) == 0,
    decreases n,
{
    if n > 0 {
        lemma_count_lt_none(s, v, n - 1);
        assert(s[n - 1] == s[0]);
    }
}

proof fn lemma_count_eq_all(s: Seq<u8>, v: u8, n: int)
    requires
        0 <= n <= s.len(),
        forall|i: int| 0 <= i < s.len() ==> s[i] == v,
    ensures
        count_eq(s, v, n) == n,
    decreases n,
{
    if n > 0 {
        lemma_count_eq_all(s, v, n - 1);
    }
}

/// Rank stability under ties: a key whose letters are all equal ranks as
/// the identity permutation, each position keeping its own index.
pub proof fn lemma_rank_ties_identity(s: Seq<u8>)
    requires
        forall|i: int, j: int| 0 <= i < s.len() && 0 <= j < s.len() ==> s[i] == s[j],
    ensures
        forall|i: int| 0 <= i < s.len() ==> rank_at(s, i) == i,
{
    assert forall|i: int| 0 <= i < s.len() implies rank_at(s, i) == i by {
        let v = s[i];
        assert(v == s[0]);
        lemma_count_lt_none(s, v, s.len() as int);
        assert(forall|j: int| 0 <= j < s.len() ==> #[trigger] s[j] == v);
        lemma_count_eq_all(s, v, i);
    }
}

proof fn lemma_count_eq_none_before(s: Seq<u8>, v: u8, i: int, n: int)
    requires
        0 <= n <= i < s.len(),
        s[i] == v,
        forall|p: int, q: int| 0 <= p < q < s.len() ==> s[p] != s[q],
    ensures
        count_eq(s, v, n) == 0,
    decreases n,
{
    if n > 0 {
        lemma_count_eq_none_before(s, v, i, n - 1);
        if s[n - 1] == v {
            assert(s[n - 1] != s[i]);
        }
    }
}

/// Rank of distinct letters: each letter's rank is the number of strictly
/// smaller letters in the key, that is, its position in alphabetical
/// order, so the rank sequence is the inverse of the key's alphabetical
/// permutation.
pub proof fn lemma_rank_distinct_sorted_position(s: Seq<u8>)
    requires
        forall|p: int, q: int| 0 <= p < q < s.len() ==> s[p] != s[q],
    ensures
        forall|i: int|
            0 <= i < s.len() ==> rank_at(s, i) == count_lt(s, s[i], s.len() as int),
{
    assert forall|i: int| 0 <= i < s.len() implies rank_at(s, i) == count_lt(
        s,
        s[i],
        s.len() as int,
    ) by {
        lemma_count_eq_none_before(s, s[i], i, i);
    }
}

} // verus!
