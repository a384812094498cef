//! Block-level trigram Bloom filters.
//!
//! Rows are partitioned into fixed-size blocks. For each block a small Bloom
//! bitset records the (ASCII-lower-cased) trigrams present anywhere in that
//! block. A substring search can then skip an entire block whenever any
//! trigram of the needle is absent from the block's filter: no row in the
//! block can contain the needle.
//!
//! A Bloom hit may be a false positive (the block is scanned anyway), but a
//! Bloom miss is always a true negative, so no match is ever lost.

use vstd::prelude::*;
use vstd::view::View as _;
use crate::dataset::{lemma_matching_rows_skip, Dataset};
use crate::encoding::{ascii_lower, folded_contains, folded_match_at, to_ascii_lower};
use crate::query::QueryNode;

verus! {

/// Rows per block.
pub const BLOCK_SIZE: usize = 4096;

/// Bits per block's filter (a power of two).
pub const BITS: usize = 32768;

/// 64-bit words per block's filter.
pub const WORDS_PER_BLOCK: usize = 512;

/// Hash probes per trigram.
pub const PROBES: u64 = 2;

/// FNV-1a offset basis.
pub const FNV_OFFSET: u64 = 0xcbf2_9ce4_8422_2325;

/// FNV-1a prime.
pub const FNV_PRIME: u64 = 0x0000_0100_0000_01b3;

/// Seed of the second trigram hash.
pub const MIX_SEED: u64 = 0x8422_2325_cbf2_9ce4;

/// One FNV-1a step: xor the byte in, then multiply.
pub open spec fn fnv_step(h: u64, b: u8) -> u64 {
    (h ^ (b as u64)).wrapping_mul(FNV_PRIME)
}

/// One step of the second hash: multiply, then xor the byte in.
pub open spec fn mix_step(h: u64, b: u8) -> u64 {
    h.wrapping_mul(FNV_PRIME) ^ (b as u64)
}

/// The first hash of trigram `abc`: FNV-1a over `a, b, c`.
pub open spec fn trigram_h1(a: u8, b: u8, c: u8) -> u64 {
    fnv_step(fnv_step(fnv_step(FNV_OFFSET, a), b), c)
}

/// The second hash of trigram `abc`: mixed over `c, a, b`, forced odd.
pub open spec fn trigram_h2(a: u8, b: u8, c: u8) -> u64 {
    mix_step(mix_step(mix_step(MIX_SEED, c), a), b) | 1u64
}

/// The filter bit that probe `k` of trigram `abc` uses (double hashing).
pub open spec fn probe_bit(a: u8, b: u8, c: u8, k: u64) -> int {
    (trigram_h1(a, b, c).wrapping_add(k.wrapping_mul(trigram_h2(a, b, c))) & 0x7fffu64) as int
}

/// Bit `s` of word `w` is set.
pub open spec fn has_bit(words: Seq<u64>, w: int, s: int) -> bool {
    words[w] & (1u64 << (s as u64)) != 0u64
}

/// Bit `idx` of block `block`'s filter is set.
pub open spec fn bit_on(words: Seq<u64>, block: int, idx: int) -> bool {
    has_bit(words, block * 512 + idx / 64, idx % 64)
}

/// Both probes of trigram `abc` are set in block `block`.
pub open spec fn trigram_present(words: Seq<u64>, block: int, a: u8, b: u8, c: u8) -> bool {
    &&& bit_on(words, block, probe_bit(a, b, c, 0))
    &&& bit_on(words, block, probe_bit(a, b, c, 1))
}

/// Every lower-cased trigram of `line` is present in block `block`.
pub open spec fn line_trigrams_set(words: Seq<u64>, block: int, line: Seq<u8>) -> bool {
    forall|j: int|
        0 <= j && j + 3 <= line.len() ==> #[trigger] trigram_present(
            words,
            block,
            ascii_lower(line[j]),
            ascii_lower(line[j + 1]),
            ascii_lower(line[j + 2]),
        )
}

/// Every trigram of `needle` is present in block `block`.
pub open spec fn needle_trigrams_present(words: Seq<u64>, block: int, needle: Seq<u8>) -> bool {
    forall|j: int|
        0 <= j && j + 3 <= needle.len() ==> #[trigger] trigram_present(
            words,
            block,
            needle[j],
            needle[j + 1],
            needle[j + 2],
        )
}

/// Probe `k < 2` of some lower-cased trigram of `line` is bit `idx`.
pub open spec fn line_probe(line: Seq<u8>, idx: int) -> bool {
    exists|j: int, k: u64|
        0 <= j && j + 3 <= line.len() && k < 2 && #[trigger] probe_bit(
            ascii_lower(line[j]),
            ascii_lower(line[j + 1]),
            ascii_lower(line[j + 2]),
            k,
        ) == idx
}

/// Some line of block `block` below `hi` has a trigram probing bit `idx`.
pub open spec fn block_probe(lines: Seq<Seq<u8>>, block: int, hi: int, idx: int) -> bool {
    exists|r: int| block * 4096 <= r < hi && r < lines.len() && #[trigger] line_probe(lines[r], idx)
}

/// `w2` is `w1` with the bits `added` of block `block` turned on, and no
/// other change.
pub open spec fn bits_added(w1: Seq<u64>, w2: Seq<u64>, block: int, added: spec_fn(int) -> bool) -> bool {
    &&& w1.len() == w2.len()
    &&& forall|b: int, i: int|
        0 <= b && (b + 1) * 512 <= w1.len() && 0 <= i < 32768 ==> (#[trigger] bit_on(w2, b, i) <==> (
        bit_on(w1, b, i) || (b == block && added(i))))
}

/// Every bit set in `w1` is set in `w2` (same length).
pub open spec fn bits_superset(w1: Seq<u64>, w2: Seq<u64>) -> bool {
    &&& w1.len() == w2.len()
    &&& forall|w: int, s: int|
        0 <= w < w1.len() && 0 <= s < 64 && #[trigger] has_bit(w1, w, s) ==> has_bit(w2, w, s)
}

/// Per-block trigram Bloom filters over a dataset's rows.
pub struct BlockBloom {
    /// Concatenated bitsets: block `b` occupies words `[b*512, (b+1)*512)`.
    words: Vec<u64>,
    num_blocks: usize,
}

impl BlockBloom {
    #[verifier::type_invariant]
    spec fn inv(&self) -> bool {
        self.words@.len() == (if self.num_blocks == 0 { 1 } else { self.num_blocks as int }) * 512
    }

    /// The filter words.
    pub closed spec fn words_spec(&self) -> Seq<u64> {
        self.words@
    }

    /// The number of blocks.
    pub closed spec fn blocks(&self) -> nat {
        self.num_blocks as nat
    }

    /// Whether a block may hold a row containing `needle`: always for needles
    /// shorter than a trigram and for blocks out of range, else when every
    /// needle trigram is present in the block's filter.
    pub open spec fn might_contain(&self, block: int, needle: Seq<u8>) -> bool {
        needle.len() < 3 || block < 0 || block >= self.blocks() || needle_trigrams_present(
            self.words_spec(),
            block,
            needle,
        )
    }

    /// The filters were built over `lines`: there are just enough blocks for
    /// them, each line's trigrams are present in its block, and a block's
    /// filter holds exactly the probes of its lines' trigrams.
    pub open spec fn covers(&self, lines: Seq<Seq<u8>>) -> bool {
        &&& self.blocks() * 4096 >= lines.len()
        &&& self.blocks() == 0 || (self.blocks() - 1) * 4096 < lines.len()
        &&& self.words_spec().len() == (if self.blocks() == 0 { 1 } else { self.blocks() as int }) * 512
        &&& forall|b: int, r: int|
            0 <= b < self.blocks() && b * 4096 <= r < b * 4096 + 4096 && r < lines.len()
                ==> #[trigger] line_trigrams_set(self.words_spec(), b, lines[r])
        &&& forall|b: int, i: int|
            0 <= b < self.blocks() && 0 <= i < 32768 ==> (#[trigger] bit_on(self.words_spec(), b, i)
                <==> block_probe(lines, b, b * 4096 + 4096, i))
    }

    /// Build the filters for every data row of `dataset`.
    pub fn build(dataset: &Dataset) -> (res: BlockBloom)
        requires
            dataset.wf(),
        ensures
            res.covers(dataset.row_lines()),
    {
        let n = dataset.row_count();
        let nb = if n % BLOCK_SIZE == 0 { n / BLOCK_SIZE } else { n / BLOCK_SIZE + 1 };
        let wl = (if nb == 0 { 1 } else { nb }) * WORDS_PER_BLOCK;
        let mut words: Vec<u64> = vec![0u64; wl];
        let ghost lines = dataset.row_lines();
        proof {
            assert forall|b: int, i: int| 0 <= b < nb && 0 <= i < 32768 implies !#[trigger] bit_on(words@, b, i) by {
                lemma_bit_in_word(b, i);
                lemma_zero_has_no_bits((i % 64) as u64);
                assert(words@[b * 512 + i / 64] == 0u64);
            }
        }
        let mut block: usize = 0;
        while block < nb
            invariant
                dataset.wf(),
                lines == dataset.row_lines(),
                n == lines.len(),
                nb * 4096 >= n,
                nb == 0 || (nb - 1) * 4096 < n,
                wl == (if nb == 0 { 1 } else { nb as int }) * 512,
                words@.len() == wl,
                block <= nb,
                forall|b: int, r: int|
                    0 <= b < block && b * 4096 <= r < b * 4096 + 4096 && r < n
                        ==> #[trigger] line_trigrams_set(words@, b, lines[r]),
                forall|b: int, i: int|
                    0 <= b < nb && 0 <= i < 32768 ==> (#[trigger] bit_on(words@, b, i) <==> block_probe(
                        lines,
                        b,
                        if b < block { b * 4096 + 4096 } else { b * 4096 },
                        i,
                    )),
            decreases nb - block,
        {
            let start = block * BLOCK_SIZE;
            let end = if n - start < BLOCK_SIZE { n } else { start + BLOCK_SIZE };
            let mut row = start;
            while row < end
                invariant
                    dataset.wf(),
                    lines == dataset.row_lines(),
                    n == lines.len(),
                    block < nb,
                    wl == (if nb == 0 { 1 } else { nb as int }) * 512,
                    words@.len() == wl,
                    start == block * 4096,
                    end == if n - start < 4096 { n as int } else { start + 4096 },
                    start <= row <= end,
                    forall|b: int, r: int|
                        ((0 <= b < block && b * 4096 <= r < b * 4096 + 4096 && r < n) || (b == block
                            && start <= r < row)) ==> #[trigger] line_trigrams_set(words@, b, lines[r]),
                    forall|b: int, i: int|
                        0 <= b < nb && 0 <= i < 32768 ==> (#[trigger] bit_on(words@, b, i) <==> block_probe(
                            lines,
                            b,
                            if b < block { b * 4096 + 4096 } else if b == block { row as int } else { b * 4096 },
                            i,
                        )),
                decreases end - row,
            {
                match dataset.line_bytes(row) {
                    Some(line) => {
                        let ghost before = words@;
                        insert_trigrams(line, &mut words, block);
                        proof {
                            assert forall|b: int, r: int|
                                ((0 <= b < block && b * 4096 <= r < b * 4096 + 4096 && r < n) || (b
                                    == block && start <= r < row + 1)) implies #[trigger] line_trigrams_set(
                                words@,
                                b,
                                lines[r],
                            ) by {
                                if b == block && r == row {
                                } else {
                                    lemma_line_set_mono(before, words@, b, lines[r]);
                                }
                            }
                            assert forall|b: int, i: int| 0 <= b < nb && 0 <= i < 32768 implies (#[trigger] bit_on(
                                words@,
                                b,
                                i,
                            ) <==> block_probe(
                                lines,
                                b,
                                if b < block { b * 4096 + 4096 } else if b == block { row + 1 } else { b * 4096 },
                                i,
                            )) by {
                                assert(bit_on(words@, b, i) <==> (bit_on(before, b, i) || (b == block && line_probe(
                                    line@,
                                    i,
                                ))));
                                if b == block {
                                    if line_probe(lines[row as int], i) {
                                        assert(block_probe(lines, b, row + 1, i));
                                    }
                                    if block_probe(lines, b, row + 1, i) && !block_probe(lines, b, row as int, i) {
                                        let r = choose|r: int|
                                            b * 4096 <= r < row + 1 && r < lines.len() && #[trigger] line_probe(lines[r], i);
                                        assert(r == row);
                                    }
                                }
                            }
                        }
                    },
                    None => {},
                }
                row += 1;
            }
            proof {
                assert forall|b: int, i: int| 0 <= b < nb && 0 <= i < 32768 implies (#[trigger] bit_on(
                    words@,
                    b,
                    i,
                ) <==> block_probe(lines, b, if b < block + 1 { b * 4096 + 4096 } else { b * 4096 }, i)) by {
                    if b == block {
                        if block_probe(lines, b, b * 4096 + 4096, i) {
                            let r = choose|r: int|
                                b * 4096 <= r < b * 4096 + 4096 && r < lines.len() && #[trigger] line_probe(lines[r], i);
                            assert(r < end);
                            assert(block_probe(lines, b, end as int, i));
                        }
                        if block_probe(lines, b, end as int, i) {
                            let r = choose|r: int| b * 4096 <= r < end && r < lines.len() && #[trigger] line_probe(lines[r], i);
                            assert(block_probe(lines, b, b * 4096 + 4096, i));
                        }
                    }
                }
            }
            block += 1;
        }
        BlockBloom { words, num_blocks: nb }
    }

    /// Rows per block.
    pub fn block_size(&self) -> (res: usize)
        ensures
            res == BLOCK_SIZE,
    {
        BLOCK_SIZE
    }

    /// Number of blocks.
    pub fn num_blocks(&self) -> (res: usize)
        ensures
            res == self.blocks(),
    {
        self.num_blocks
    }

    /// Could block `block` contain `needle`? Always `true` for needles
    /// shorter than a trigram (no signal) and for blocks out of range.
    pub fn block_might_contain(&self, block: usize, needle: &[u8]) -> (res: bool)
        ensures
            res == self.might_contain(block as int, needle@),
    {
        if needle.len() < 3 || block >= self.num_blocks {
            return true;
        }
        proof {
            use_type_invariant(self);
        }
        let mut j: usize = 0;
        while needle.len() - j >= 3
            invariant
                j <= needle@.len(),
                block < self.num_blocks,
                self.words@.len() == self.num_blocks * 512,
                forall|i: int|
                    0 <= i < j ==> #[trigger] trigram_present(
                        self.words@,
                        block as int,
                        needle@[i],
                        needle@[i + 1],
                        needle@[i + 2],
                    ),
            decreases needle@.len() - j,
        {
            if !trigram_in_block(&self.words, block, needle[j], needle[j + 1], needle[j + 2]) {
                return false;
            }
            j += 1;
        }
        true
    }
}

/// Both hashes of a trigram, for double hashing.
fn trigram_hashes(a: u8, b: u8, c: u8) -> (res: (u64, u64))
    ensures
        res.0 == trigram_h1(a, b, c),
        res.1 == trigram_h2(a, b, c),
{
    let mut h1: u64 = FNV_OFFSET;
    h1 = (h1 ^ (a as u64)).wrapping_mul(FNV_PRIME);
    h1 = (h1 ^ (b as u64)).wrapping_mul(FNV_PRIME);
    h1 = (h1 ^ (c as u64)).wrapping_mul(FNV_PRIME);
    let mut h2: u64 = MIX_SEED;
    h2 = h2.wrapping_mul(FNV_PRIME) ^ (c as u64);
    h2 = h2.wrapping_mul(FNV_PRIME) ^ (a as u64);
    h2 = h2.wrapping_mul(FNV_PRIME) ^ (b as u64);
    (h1, h2 | 1)
}

/// The filter bit of probe `k` for hashes `(h1, h2)`.
fn probe_index(h1: u64, h2: u64, k: u64) -> (res: usize)
    ensures
        res as int == (h1.wrapping_add(k.wrapping_mul(h2)) & 0x7fffu64) as int,
        res < BITS,
{
    let x = h1.wrapping_add(k.wrapping_mul(h2));
    let m = x & 0x7fff;
    assert(x & 0x7fffu64 <= 0x7fffu64) by (bit_vector);
    m as usize
}

/// Is bit `idx` of block `block`'s filter set?
fn test_bit(words: &Vec<u64>, block: usize, idx: usize) -> (res: bool)
    requires
        idx < BITS,
        (block + 1) * 512 <= words@.len(),
    ensures
        res == bit_on(words@, block as int, idx as int),
{
    let _len = words.len();
    let w = block * WORDS_PER_BLOCK + idx / 64;
    let s = (idx % 64) as u64;
    words[w] & (1u64 << s) != 0
}

/// Set bit `idx` of block `block`'s filter.
fn set_bit(words: &mut Vec<u64>, block: usize, idx: usize)
    requires
        idx < BITS,
        (block + 1) * 512 <= old(words)@.len(),
    ensures
        bits_superset(old(words)@, final(words)@),
        bit_on(final(words)@, block as int, idx as int),
        bits_added(old(words)@, final(words)@, block as int, |i: int| i == idx),
{
    let _len = words.len();
    let w = block * WORDS_PER_BLOCK + idx / 64;
    let s = (idx % 64) as u64;
    let ghost before = words@;
    let v = words[w] | (1u64 << s);
    words[w] = v;
    proof {
        lemma_set_bit(before, w as int, s);
        assert(words@ == before.update(w as int, before[w as int] | (1u64 << s)));
        assert forall|b: int, i: int|
            0 <= b && (b + 1) * 512 <= before.len() && 0 <= i < 32768 implies (#[trigger] bit_on(words@, b, i)
            <==> (bit_on(before, b, i) || (b == block && i == idx))) by {
            let wi = b * 512 + i / 64;
            let si = i % 64;
            lemma_or_bit_iff(before[wi], s, si as u64);
            lemma_bit_position(b, i, block as int, idx as int);
        }
    }
}

proof fn lemma_zero_has_no_bits(t: u64)
    by (bit_vector)
    requires
        t < 64,
    ensures
        0u64 & (1u64 << t) == 0u64,
{
}

/// Bit `i` of block `b` lies in word `b * 512 + i / 64` at position `i % 64`.
proof fn lemma_bit_in_word(b: int, i: int)
    requires
        0 <= b,
        0 <= i < 32768,
    ensures
        0 <= i / 64 < 512,
        0 <= i % 64 < 64,
        b * 512 <= b * 512 + i / 64 < b * 512 + 512,
{
    assert(0 <= i / 64 < 512) by (nonlinear_arith)
        requires
            0 <= i < 32768,
    ;
}

proof fn lemma_or_bit_iff(x: u64, s: u64, t: u64)
    by (bit_vector)
    requires
        s < 64,
        t < 64,
    ensures
        ((x | (1u64 << s)) & (1u64 << t) != 0u64) == ((x & (1u64 << t) != 0u64) || t == s),
{
}

/// Two filter bits share a word and a position in it only when they are the
/// same bit of the same block.
proof fn lemma_bit_position(b: int, i: int, block: int, idx: int)
    requires
        0 <= b,
        0 <= block,
        0 <= i < 32768,
        0 <= idx < 32768,
    ensures
        (b * 512 + i / 64 == block * 512 + idx / 64 && i % 64 == idx % 64) <==> (b == block && i == idx),
{
    assert(0 <= i / 64 < 512) by (nonlinear_arith)
        requires
            0 <= i < 32768,
    ;
    assert(0 <= idx / 64 < 512) by (nonlinear_arith)
        requires
            0 <= idx < 32768,
    ;
    assert(i == 64 * (i / 64) + i % 64) by (nonlinear_arith);
    assert(idx == 64 * (idx / 64) + idx % 64) by (nonlinear_arith);
    if b * 512 + i / 64 == block * 512 + idx / 64 {
        assert(b == block) by (nonlinear_arith)
            requires
                b * 512 + i / 64 == block * 512 + idx / 64,
                0 <= i / 64 < 512,
                0 <= idx / 64 < 512,
        ;
    }
}

/// Are both probes of trigram `abc` set in block `block`?
fn trigram_in_block(words: &Vec<u64>, block: usize, a: u8, b: u8, c: u8) -> (res: bool)
    requires
        (block + 1) * 512 <= words@.len(),
    ensures
        res == trigram_present(words@, block as int, a, b, c),
{
    let (h1, h2) = trigram_hashes(a, b, c);
    let mut k: u64 = 0;
    while k < PROBES
        invariant
            k <= PROBES,
            h1 == trigram_h1(a, b, c),
            h2 == trigram_h2(a, b, c),
            (block + 1) * 512 <= words@.len(),
            forall|q: u64| q < k ==> #[trigger] bit_on(words@, block as int, probe_bit(a, b, c, q)),
        decreases PROBES - k,
    {
        let idx = probe_index(h1, h2, k);
        if !test_bit(words, block, idx) {
            return false;
        }
        k += 1;
    }
    assert(bit_on(words@, block as int, probe_bit(a, b, c, 0)));
    assert(bit_on(words@, block as int, probe_bit(a, b, c, 1)));
    true
}

/// Record trigram `abc` in block `block`'s filter: set both its probes.
fn insert_trigram(words: &mut Vec<u64>, block: usize, a: u8, b: u8, c: u8)
    requires
        (block + 1) * 512 <= old(words)@.len(),
    ensures
        bits_superset(old(words)@, final(words)@),
        trigram_present(final(words)@, block as int, a, b, c),
        bits_added(old(words)@, final(words)@, block as int, probes_below(a, b, c, 2)),
{
    let (h1, h2) = trigram_hashes(a, b, c);
    let ghost start = words@;
    let mut k: u64 = 0;
    while k < PROBES
        invariant
            k <= PROBES,
            h1 == trigram_h1(a, b, c),
            h2 == trigram_h2(a, b, c),
            (block + 1) * 512 <= words@.len(),
            bits_superset(start, words@),
            bits_added(start, words@, block as int, probes_below(a, b, c, k as int)),
            forall|q: u64| q < k ==> #[trigger] bit_on(words@, block as int, probe_bit(a, b, c, q)),
        decreases PROBES - k,
    {
        let idx = probe_index(h1, h2, k);
        let ghost prev = words@;
        set_bit(words, block, idx);
        proof {
            lemma_added_trans(start, prev, words@, block as int, probes_below(a, b, c, k as int),
                |i: int| i == idx);
            assert forall|i: int|
                #[trigger] probes_below(a, b, c, k + 1)(i) <==> (probes_below(a, b, c, k as int)(i) || i == idx) by {
                if probes_below(a, b, c, k + 1)(i) && !probes_below(a, b, c, k as int)(i) {
                    let q = choose|q: u64| q < k + 1 && #[trigger] probe_bit(a, b, c, q) == i;
                    assert(q == k);
                }
                if i == idx {
                    assert(probe_bit(a, b, c, k) == i);
                }
            }
            lemma_added_equiv(start, words@, block as int,
                |i: int| probes_below(a, b, c, k as int)(i) || i == idx,
                probes_below(a, b, c, k + 1));
            lemma_superset_trans(start, prev, words@);
            assert forall|q: u64| q < k + 1 implies #[trigger] bit_on(words@, block as int, probe_bit(a, b, c, q)) by {
                if q < k {
                    lemma_probe_in_range(a, b, c, q);
                    lemma_bit_mono(prev, words@, block as int, probe_bit(a, b, c, q));
                }
            }
        }
        k += 1;
    }
    assert(bit_on(words@, block as int, probe_bit(a, b, c, 0)));
    assert(bit_on(words@, block as int, probe_bit(a, b, c, 1)));
}

/// Record every lower-cased trigram of `line` in block `block`'s filter.
fn insert_trigrams(line: &[u8], words: &mut Vec<u64>, block: usize)
    requires
        (block + 1) * 512 <= old(words)@.len(),
    ensures
        bits_superset(old(words)@, final(words)@),
        line_trigrams_set(final(words)@, block as int, line@),
        bits_added(old(words)@, final(words)@, block as int, |i: int| line_probe(line@, i)),
{
    let ghost orig = words@;
    if line.len() < 3 {
        return;
    }
    let mut j: usize = 0;
    while line.len() - j >= 3
        invariant
            j <= line@.len(),
            (block + 1) * 512 <= words@.len(),
            bits_superset(orig, words@),
            bits_added(orig, words@, block as int, line_probes_below(line@, j as int)),
            forall|i: int|
                0 <= i < j ==> #[trigger] trigram_present(
                    words@,
                    block as int,
                    ascii_lower(line@[i]),
                    ascii_lower(line@[i + 1]),
                    ascii_lower(line@[i + 2]),
                ),
        decreases line@.len() - j,
    {
        let a = to_ascii_lower(line[j]);
        let b = to_ascii_lower(line[j + 1]);
        let c = to_ascii_lower(line[j + 2]);
        let ghost start = words@;
        insert_trigram(words, block, a, b, c);
        proof {
            assert forall|i: int| 0 <= i < j + 1 implies #[trigger] trigram_present(
                words@,
                block as int,
                ascii_lower(line@[i]),
                ascii_lower(line@[i + 1]),
                ascii_lower(line@[i + 2]),
            ) by {
                if i < j {
                    lemma_trigram_mono(start, words@, block as int, ascii_lower(line@[i]),
                        ascii_lower(line@[i + 1]), ascii_lower(line@[i + 2]));
                }
            }
            lemma_superset_trans(orig, start, words@);
            lemma_added_trans(orig, start, words@, block as int, line_probes_below(line@, j as int),
                probes_below(a, b, c, 2));
            assert forall|i: int|
                (line_probes_below(line@, j as int)(i) || probes_below(a, b, c, 2)(i))
                    <==> #[trigger] line_probes_below(line@, j + 1)(i) by {
                if probes_below(a, b, c, 2)(i) {
                    let q = choose|q: u64| q < 2 && probe_bit(a, b, c, q) == i;
                    assert(0 <= j && j + 3 <= line@.len() && q < 2 && probe_bit(
                        ascii_lower(line@[j as int]),
                        ascii_lower(line@[j + 1]),
                        ascii_lower(line@[j + 2]),
                        q,
                    ) == i);
                }
                if line_probes_below(line@, j + 1)(i) && !line_probes_below(line@, j as int)(i) {
                    let (p, q) = choose|p: int, q: u64|
                        0 <= p < j + 1 && p + 3 <= line@.len() && q < 2 && #[trigger] probe_bit(
                            ascii_lower(line@[p]),
                            ascii_lower(line@[p + 1]),
                            ascii_lower(line@[p + 2]),
                            q,
                        ) == i;
                    assert(p == j);
                }
            }
            lemma_added_equiv(orig, words@, block as int,
                |i: int| line_probes_below(line@, j as int)(i) || probes_below(a, b, c, 2)(i),
                line_probes_below(line@, j + 1));
        }
        j += 1;
    }
    proof {
        assert forall|i: int| #[trigger] line_probes_below(line@, j as int)(i) <==> line_probe(line@, i) by {
            if line_probe(line@, i) {
                let (p, q) = choose|p: int, q: u64|
                    0 <= p && p + 3 <= line@.len() && q < 2 && #[trigger] probe_bit(
                        ascii_lower(line@[p]),
                        ascii_lower(line@[p + 1]),
                        ascii_lower(line@[p + 2]),
                        q,
                    ) == i;
                assert(p < j);
            }
        }
        lemma_added_equiv(orig, words@, block as int, line_probes_below(line@, j as int),
            |i: int| line_probe(line@, i));
    }
}

/// Probe `q < k` of trigram `abc` is the bit.
pub open spec fn probes_below(a: u8, b: u8, c: u8, k: int) -> spec_fn(int) -> bool {
    |i: int| exists|q: u64| q < k && #[trigger] probe_bit(a, b, c, q) == i
}

/// Probe `q < 2` of a lower-cased trigram of `line` starting before `j` is
/// the bit.
pub open spec fn line_probes_below(line: Seq<u8>, j: int) -> spec_fn(int) -> bool {
    |i: int|
        exists|p: int, q: u64|
            0 <= p < j && p + 3 <= line.len() && q < 2 && #[trigger] probe_bit(
                ascii_lower(line[p]),
                ascii_lower(line[p + 1]),
                ascii_lower(line[p + 2]),
                q,
            ) == i
}

proof fn lemma_added_trans(
    w1: Seq<u64>,
    w2: Seq<u64>,
    w3: Seq<u64>,
    block: int,
    f: spec_fn(int) -> bool,
    g: spec_fn(int) -> bool,
)
    requires
        bits_added(w1, w2, block, f),
        bits_added(w2, w3, block, g),
    ensures
        bits_added(w1, w3, block, |i: int| f(i) || g(i)),
{
    assert forall|b: int, i: int|
        0 <= b && (b + 1) * 512 <= w1.len() && 0 <= i < 32768 implies (#[trigger] bit_on(w3, b, i) <==> (
        bit_on(w1, b, i) || (b == block && (f(i) || g(i))))) by {
        assert(bit_on(w2, b, i) <==> (bit_on(w1, b, i) || (b == block && f(i))));
    }
}

proof fn lemma_added_equiv(w1: Seq<u64>, w2: Seq<u64>, block: int, f: spec_fn(int) -> bool, g: spec_fn(int) -> bool)
    requires
        bits_added(w1, w2, block, f),
        forall|i: int| #[trigger] f(i) <==> g(i),
    ensures
        bits_added(w1, w2, block, g),
{
    assert forall|b: int, i: int|
        0 <= b && (b + 1) * 512 <= w1.len() && 0 <= i < 32768 implies (#[trigger] bit_on(w2, b, i) <==> (
        bit_on(w1, b, i) || (b == block && g(i)))) by {
        assert(f(i) <==> g(i));
    }
}

/// Run a single-substring search accelerated by `bloom`. `col` scopes the
/// match to one column (`None` = any column). Returns the matching data rows
/// in ascending order, exactly as a scan of every row would.
pub fn search_substring(dataset: &Dataset, bloom: &BlockBloom, col: Option<usize>, needle: &[u8]) -> (res: Vec<u32>)
    requires
        dataset.wf(),
        bloom.covers(dataset.row_lines()),
    ensures
        res@ == dataset.matching_rows(
            QueryNode::Substr { col, needle: needle@ },
            dataset.row_count_spec() as int,
        ),
{
    let n = dataset.row_count();
    let block_size = bloom.block_size();
    let nb = bloom.num_blocks();
    let ghost tree = QueryNode::Substr { col, needle: needle@ };
    let ghost lines = dataset.row_lines();
    let mut out: Vec<u32> = Vec::new();
    let mut block: usize = 0;
    while block < nb
        invariant
            dataset.wf(),
            bloom.covers(lines),
            lines == dataset.row_lines(),
            n == lines.len(),
            nb == bloom.blocks(),
            block_size == 4096,
            block <= nb,
            tree == (QueryNode::Substr { col, needle: needle@ }),
            out@ == dataset.matching_rows(tree, if block * 4096 < n { block * 4096 } else { n as int }),
        decreases nb - block,
    {
        let start = block * block_size;
        let end = if n - start < block_size { n } else { start + block_size };
        if bloom.block_might_contain(block, needle) {
            let mut row = start;
            while row < end
                invariant
                    dataset.wf(),
                    n == dataset.row_count_spec(),
                    start <= row <= end,
                    end <= n,
                    tree == (QueryNode::Substr { col, needle: needle@ }),
                    out@ == dataset.matching_rows(tree, row as int),
                decreases end - row,
            {
                if dataset.matches_substring(row, col, needle) {
                    out.push(row as u32);
                }
                row += 1;
            }
        } else {
            proof {
                assert forall|r: int| start <= r < end implies !dataset.row_matches_tree(tree, r) by {
                    law_bloom_miss_is_true_negative(*bloom, lines, block as int, needle@, r);
                    dataset.lemma_substring_match_in_line(r, col, needle@);
                }
                lemma_matching_rows_skip(*dataset, tree, start as int, end as int);
            }
        }
        block += 1;
    }
    out
}

/// A Bloom miss is a true negative: when block `block` cannot contain
/// `needle` according to its filter, no line of that block contains
/// `needle` (ASCII case folded on the line side).
pub proof fn law_bloom_miss_is_true_negative(
    bloom: BlockBloom,
    lines: Seq<Seq<u8>>,
    block: int,
    needle: Seq<u8>,
    r: int,
)
    requires
        bloom.covers(lines),
        !bloom.might_contain(block, needle),
        block * 4096 <= r < block * 4096 + 4096,
        r < lines.len(),
    ensures
        !folded_contains(lines[r], needle),
{
    if folded_contains(lines[r], needle) {
        let line = lines[r];
        let i = choose|i: int| folded_match_at(line, needle, i);
        assert(line_trigrams_set(bloom.words_spec(), block, line));
        assert forall|j: int| 0 <= j && j + 3 <= needle.len() implies #[trigger] trigram_present(
            bloom.words_spec(),
            block,
            needle[j],
            needle[j + 1],
            needle[j + 2],
        ) by {
            assert(ascii_lower(line[i + j]) == needle[j]);
            assert(ascii_lower(line[i + (j + 1)]) == needle[j + 1]);
            assert(ascii_lower(line[i + (j + 2)]) == needle[j + 2]);
            assert(trigram_present(
                bloom.words_spec(),
                block,
                ascii_lower(line[i + j]),
                ascii_lower(line[i + j + 1]),
                ascii_lower(line[i + j + 2]),
            ));
        }
    }
}

proof fn lemma_or_keeps_bit(x: u64, s: u64, t: u64)
    by (bit_vector)
    requires
        s < 64,
        t < 64,
        x & (1u64 << t) != 0u64,
    ensures
        (x | (1u64 << s)) & (1u64 << t) != 0u64,
{
}

proof fn lemma_or_sets_bit(x: u64, s: u64)
    by (bit_vector)
    requires
        s < 64,
    ensures
        (x | (1u64 << s)) & (1u64 << s) != 0u64,
{
}

proof fn lemma_set_bit(words: Seq<u64>, w: int, s: u64)
    requires
        0 <= w < words.len(),
        s < 64,
    ensures
        bits_superset(words, words.update(w, words[w] | (1u64 << s))),
        has_bit(words.update(w, words[w] | (1u64 << s)), w, s as int),
{
    let w2 = words.update(w, words[w] | (1u64 << s));
    assert forall|i: int, t: int|
        0 <= i < words.len() && 0 <= t < 64 && #[trigger] has_bit(words, i, t) implies has_bit(w2, i, t) by {
        if i == w {
            lemma_or_keeps_bit(words[w], s, t as u64);
        }
    }
    lemma_or_sets_bit(words[w], s);
}

proof fn lemma_superset_trans(w1: Seq<u64>, w2: Seq<u64>, w3: Seq<u64>)
    requires
        bits_superset(w1, w2),
        bits_superset(w2, w3),
    ensures
        bits_superset(w1, w3),
{
    assert forall|w: int, s: int|
        0 <= w < w1.len() && 0 <= s < 64 && #[trigger] has_bit(w1, w, s) implies has_bit(w3, w, s) by {
        assert(has_bit(w2, w, s));
    }
}

proof fn lemma_probe_in_range(a: u8, b: u8, c: u8, k: u64)
    ensures
        0 <= probe_bit(a, b, c, k) < 32768,
{
    let x = trigram_h1(a, b, c).wrapping_add(k.wrapping_mul(trigram_h2(a, b, c)));
    assert(x & 0x7fffu64 <= 0x7fffu64) by (bit_vector);
}

proof fn lemma_bit_mono(w1: Seq<u64>, w2: Seq<u64>, block: int, idx: int)
    requires
        bits_superset(w1, w2),
        0 <= block,
        (block + 1) * 512 <= w1.len(),
        0 <= idx < 32768,
        bit_on(w1, block, idx),
    ensures
        bit_on(w2, block, idx),
{
    assert(has_bit(w1, block * 512 + idx / 64, idx % 64));
}

proof fn lemma_trigram_mono(w1: Seq<u64>, w2: Seq<u64>, block: int, a: u8, b: u8, c: u8)
    requires
        bits_superset(w1, w2),
        0 <= block,
        (block + 1) * 512 <= w1.len(),
        trigram_present(w1, block, a, b, c),
    ensures
        trigram_present(w2, block, a, b, c),
{
    lemma_probe_in_range(a, b, c, 0);
    lemma_probe_in_range(a, b, c, 1);
    lemma_bit_mono(w1, w2, block, probe_bit(a, b, c, 0));
    lemma_bit_mono(w1, w2, block, probe_bit(a, b, c, 1));
}

proof fn lemma_line_set_mono(w1: Seq<u64>, w2: Seq<u64>, block: int, line: Seq<u8>)
    requires
        bits_superset(w1, w2),
        0 <= block,
        (block + 1) * 512 <= w1.len(),
        line_trigrams_set(w1, block, line),
    ensures
        line_trigrams_set(w2, block, line),
{
    assert forall|j: int| 0 <= j && j + 3 <= line.len() implies #[trigger] trigram_present(
        w2,
        block,
        ascii_lower(line[j]),
        ascii_lower(line[j + 1]),
        ascii_lower(line[j + 2]),
    ) by {
        lemma_trigram_mono(w1, w2, block, ascii_lower(line[j]), ascii_lower(line[j + 1]),
            ascii_lower(line[j + 2]));
    }
}

} // verus!
