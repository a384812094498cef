//! Row tagging (a per-row "Tag" column).
//!
//! A tag is a per-row boolean keyed by the absolute data-row index, so it is
//! independent of the current filter, sort, or grouping. Storage is a compact
//! bitset: one bit per row.

use vstd::prelude::*;

verus! {

/// Bit `b` of `w`.
pub open spec fn bit_of(w: u64, b: u64) -> bool {
    (w >> b) & 1u64 == 1u64
}

/// Number of set bits of `w` among its lowest `k` bits.
pub open spec fn ones_below(w: u64, k: nat) -> nat
    decreases k,
{
    if k == 0 {
        0
    } else {
        ones_below(w, (k - 1) as nat) + if bit_of(w, (k - 1) as u64) { 1nat } else { 0nat }
    }
}

/// `u64::count_ones`: the number of ones in the binary representation of `w`.
#[verifier::external_body]
fn count_ones(w: u64) -> (res: u32)
    ensures
        res == ones_below(w, 64),
{
    w.count_ones()
}

/// Number of `true` entries among the first `n` of `s`.
pub open spec fn count_true(s: Seq<bool>, n: int) -> nat
    decreases n,
{
    if n <= 0 {
        0
    } else {
        count_true(s, n - 1) + if s[n - 1] { 1nat } else { 0nat }
    }
}

/// The positions of the `true` entries among the first `n` of `s`,
/// ascending, as 32-bit row ids.
pub open spec fn true_positions(s: Seq<bool>, n: int) -> Seq<u32>
    decreases n,
{
    if n <= 0 {
        seq![]
    } else if s[n - 1] {
        true_positions(s, n - 1).push((n - 1) as u32)
    } else {
        true_positions(s, n - 1)
    }
}

/// Number of 64-bit words backing `len` rows (at least one).
pub open spec fn word_count(len: int) -> int {
    if len <= 64 {
        1
    } else {
        (len + 63) / 64
    }
}

/// A compact bitset over `len` rows.
pub struct TagStore {
    words: Vec<u64>,
    len: usize,
}

proof fn lemma_bit_set(w: u64, s: u64, b: u64)
    requires
        s < 64,
        b < 64,
    ensures
        bit_of(w | (1u64 << s), b) == (b == s || bit_of(w, b)),
        bit_of(w & !(1u64 << s), b) == (b != s && bit_of(w, b)),
{
    assert(((w | (1u64 << s)) >> b) & 1u64 == 1u64 <==> (b == s || (w >> b) & 1u64 == 1u64))
        by (bit_vector)
        requires
            s < 64,
            b < 64,
    ;
    assert(((w & !(1u64 << s)) >> b) & 1u64 == 1u64 <==> (b != s && (w >> b) & 1u64 == 1u64))
        by (bit_vector)
        requires
            s < 64,
            b < 64,
    ;
}

proof fn lemma_zero_word(b: u64)
    ensures
        !bit_of(0u64, b),
{
    assert((0u64 >> b) & 1u64 != 1u64) by (bit_vector);
}

proof fn lemma_ones_below_le(w: u64, k: nat)
    ensures
        ones_below(w, k) <= k,
    decreases k,
{
    if k > 0 {
        lemma_ones_below_le(w, (k - 1) as nat);
    }
}

proof fn lemma_count_true_le(s: Seq<bool>, n: int)
    requires
        0 <= n,
    ensures
        count_true(s, n) <= n,
    decreases n,
{
    if n > 0 {
        lemma_count_true_le(s, n - 1);
    }
}

proof fn lemma_count_true_mono(s: Seq<bool>, m: int, n: int)
    requires
        0 <= m <= n,
    ensures
        count_true(s, m) <= count_true(s, n),
    decreases n - m,
{
    if m < n {
        lemma_count_true_mono(s, m, n - 1);
    }
}

impl TagStore {
    /// Well-formedness: the word vector covers every row (at least one word)
    /// and no bit beyond the last row is set.
    pub closed spec fn wf(&self) -> bool {
        &&& self.words@.len() == word_count(self.len as int)
        &&& forall|w: int, b: int|
            0 <= w < self.words@.len() && 0 <= b < 64 && w * 64 + b >= self.len ==> !(#[trigger] bit_of(self.words@[w], b as u64))
    }

    /// The bit recording the tag of `row`, over the whole backing storage.
    spec fn raw_tag(&self, row: int) -> bool {
        bit_of(self.words@[row / 64], (row % 64) as u64)
    }

    /// The tag of every row, `tags()[r]` being the tag of row `r`.
    pub closed spec fn tags(&self) -> Seq<bool> {
        Seq::new(self.len as nat, |r: int| self.raw_tag(r))
    }

    /// A store for `len` rows, none tagged.
    pub fn new(len: usize) -> (res: TagStore)
        ensures
            res.wf(),
            res.tags() == Seq::new(len as nat, |r: int| false),
    {
        let wc: usize = if len <= 64 {
            1
        } else if len % 64 == 0 {
            len / 64
        } else {
            len / 64 + 1
        };
        assert(wc == word_count(len as int));
        let mut words: Vec<u64> = Vec::with_capacity(wc);
        while words.len() < wc
            invariant
                words@.len() <= wc,
                forall|w: int| 0 <= w < words@.len() ==> words@[w] == 0u64,
            decreases wc - words@.len(),
        {
            words.push(0);
        }
        let res = TagStore { words, len };
        proof {
            assert forall|w: int, b: int|
                0 <= w < res.words@.len() && 0 <= b < 64 implies !(#[trigger] bit_of(res.words@[w], b as u64)) by {
                lemma_zero_word(b as u64);
            }
            assert forall|r: int| 0 <= r < len implies !res.raw_tag(r) by {
                lemma_zero_word((r % 64) as u64);
            }
            assert(res.tags() =~= Seq::new(len as nat, |r: int| false));
        }
        res
    }

    /// Tag or untag `row`. Out-of-range rows are ignored.
    pub fn set(&mut self, row: usize, tagged: bool)
        requires
            old(self).wf(),
        ensures
            final(self).wf(),
            final(self).tags() == if row < old(self).tags().len() {
                old(self).tags().update(row as int, tagged)
            } else {
                old(self).tags()
            },
    {
        if row >= self.len {
            return;
        }
        let wi = row / 64;
        let shift = (row % 64) as u64;
        let bit: u64 = 1u64 << shift;
        let ghost old_words = self.words@;
        let ghost old_tags = self.tags();
        let old_word = self.words[wi];
        let new_word = if tagged { old_word | bit } else { old_word & !bit };
        proof {
            assert forall|b: u64| b < 64 implies bit_of(new_word, b) == (if b == shift {
                tagged
            } else {
                bit_of(old_word, b)
            }) by {
                lemma_bit_set(old_word, shift, b);
            }
        }
        self.words.set(wi, new_word);
        proof {
            assert forall|w: int, b: int|
                0 <= w < self.words@.len() && 0 <= b < 64 && w * 64 + b >= self.len implies !(#[trigger] bit_of(self.words@[w], b as u64)) by {
                if w == wi {
                    assert(b as u64 != shift);
                    assert(bit_of(old_words[w], b as u64) == bit_of(new_word, b as u64));
                }
            }
            assert forall|r: int| 0 <= r < self.len implies #[trigger] self.raw_tag(r) == (if r
                == row {
                tagged
            } else {
                old_tags[r]
            }) by {
                if r / 64 == wi as int {
                    if r != row {
                        assert(r % 64 != row % 64);
                    }
                }
            }
            assert(self.tags() =~= old_tags.update(row as int, tagged));
        }
    }

    /// Is `row` tagged? Out-of-range rows are not.
    pub fn get(&self, row: usize) -> (res: bool)
        requires
            self.wf(),
        ensures
            res == (row < self.tags().len() && self.tags()[row as int]),
    {
        if row >= self.len {
            return false;
        }
        let w = self.words[row / 64];
        let shift = (row % 64) as u64;
        (w >> shift) & 1u64 == 1u64
    }

    /// Total number of tagged rows.
    pub fn count(&self) -> (res: usize)
        requires
            self.wf(),
        ensures
            res == count_true(self.tags(), self.tags().len() as int),
    {
        let n = self.words.len();
        let mut total: usize = 0;
        let mut w: usize = 0;
        proof {
            self.lemma_prefix_full(0);
        }
        while w < n
            invariant
                w <= n,
                n == self.words@.len(),
                n == word_count(self.len as int),
                total == self.bits_before(w as int * 64),
                forall|ww: int, b: int|
                    0 <= ww < self.words@.len() && 0 <= b < 64 && ww * 64 + b >= self.len ==> !(#[trigger] bit_of(self.words@[ww], b as u64)),
            decreases n - w,
        {
            let c = count_ones(self.words[w]);
            proof {
                self.lemma_word_bits(w as int, 64);
                self.lemma_bits_bound((w + 1) as int * 64);
            }
            total = total + c as usize;
            w += 1;
        }
        proof {
            self.lemma_bits_tail(n as int * 64);
        }
        total
    }

    /// Number of set bits at global positions below `p`.
    spec fn bits_before(&self, p: int) -> nat
        decreases p,
    {
        if p <= 0 {
            0
        } else {
            self.bits_before(p - 1) + if self.raw_tag(p - 1) { 1nat } else { 0nat }
        }
    }

    proof fn lemma_prefix_full(&self, p: int)
        requires
            p == 0,
        ensures
            self.bits_before(p) == 0,
    {
    }

    /// The set bits of word `w` below `k` add up with the earlier words.
    proof fn lemma_word_bits(&self, w: int, k: nat)
        requires
            0 <= w < self.words@.len(),
            k <= 64,
        ensures
            self.bits_before(w * 64 + k) == self.bits_before(w * 64) + ones_below(
                self.words@[w],
                k,
            ),
        decreases k,
    {
        if k > 0 {
            self.lemma_word_bits(w, (k - 1) as nat);
            let p = w * 64 + k - 1;
            assert(p / 64 == w && p % 64 == k - 1) by (nonlinear_arith)
                requires
                    p == w * 64 + k - 1,
                    0 <= k - 1 < 64,
            ;
        }
    }

    /// Set bits below `p` are bounded by the stored length.
    proof fn lemma_bits_bound(&self, p: int)
        requires
            0 <= p <= self.words@.len() * 64,
            self.words@.len() == word_count(self.len as int),
            forall|w: int, b: int|
                0 <= w < self.words@.len() && 0 <= b < 64 && w * 64 + b >= self.len ==> !(#[trigger] bit_of(self.words@[w], b as u64)),
        ensures
            self.bits_before(p) <= self.len,
        decreases p,
    {
        if p > 0 {
            self.lemma_bits_bound(p - 1);
            if p - 1 >= self.len {
                self.lemma_no_bit_beyond(p - 1);
                self.lemma_bits_tail(p - 1);
            } else {
                self.lemma_bits_le(p - 1);
            }
        }
    }

    proof fn lemma_bits_le(&self, p: int)
        requires
            0 <= p,
        ensures
            self.bits_before(p) <= p,
        decreases p,
    {
        if p > 0 {
            self.lemma_bits_le(p - 1);
        }
    }

    proof fn lemma_no_bit_beyond(&self, p: int)
        requires
            self.len <= p < self.words@.len() * 64,
            forall|w: int, b: int|
                0 <= w < self.words@.len() && 0 <= b < 64 && w * 64 + b >= self.len ==> !(#[trigger] bit_of(self.words@[w], b as u64)),
        ensures
            !self.raw_tag(p),
    {
        let w = p / 64;
        let b = p % 64;
        assert(w * 64 + b == p && 0 <= w < self.words@.len()) by (nonlinear_arith)
            requires
                w == p / 64,
                b == p % 64,
                0 <= p < self.words@.len() * 64,
        ;
        assert(!bit_of(self.words@[w], b as u64));
    }

    /// Past the stored length there are no set bits: the count stays put.
    proof fn lemma_bits_tail(&self, p: int)
        requires
            self.len <= p <= self.words@.len() * 64,
            forall|w: int, b: int|
                0 <= w < self.words@.len() && 0 <= b < 64 && w * 64 + b >= self.len ==> !(#[trigger] bit_of(self.words@[w], b as u64)),
        ensures
            self.bits_before(p) == self.bits_before(self.len as int),
            self.bits_before(self.len as int) == count_true(self.tags(), self.len as int),
        decreases p,
    {
        if p > self.len {
            self.lemma_no_bit_beyond(p - 1);
            self.lemma_bits_tail(p - 1);
        } else {
            self.lemma_bits_are_tags(self.len as int);
        }
    }

    proof fn lemma_bits_are_tags(&self, n: int)
        requires
            0 <= n <= self.len,
        ensures
            self.bits_before(n) == count_true(self.tags(), n),
        decreases n,
    {
        if n > 0 {
            self.lemma_bits_are_tags(n - 1);
        }
    }

    /// Untag everything.
    pub fn clear(&mut self)
        requires
            old(self).wf(),
        ensures
            final(self).wf(),
            final(self).tags() == Seq::new(old(self).tags().len(), |r: int| false),
    {
        let n = self.words.len();
        let mut w: usize = 0;
        while w < n
            invariant
                w <= n,
                n == self.words@.len(),
                n == word_count(self.len as int),
                self.len == old(self).len,
                forall|ww: int| 0 <= ww < w ==> self.words@[ww] == 0u64,
                forall|ww: int, b: int|
                    0 <= ww < self.words@.len() && 0 <= b < 64 && ww * 64 + b >= self.len ==> !(#[trigger] bit_of(self.words@[ww], b as u64)),
            decreases n - w,
        {
            self.words.set(w, 0);
            proof {
                assert forall|b: int| 0 <= b < 64 implies !(#[trigger] bit_of(self.words@[w as int], b as u64)) by {
                    lemma_zero_word(b as u64);
                }
            }
            w += 1;
        }
        proof {
            assert forall|r: int| 0 <= r < self.len implies !self.raw_tag(r) by {
                lemma_zero_word((r % 64) as u64);
                assert(r / 64 < n) by (nonlinear_arith)
                    requires
                        0 <= r < self.len,
                        n == word_count(self.len as int),
                ;
            }
            assert(self.tags() =~= Seq::new(old(self).tags().len(), |r: int| false));
        }
    }

    /// All tagged row indices, ascending.
    pub fn tagged_rows(&self) -> (res: Vec<u32>)
        requires
            self.wf(),
        ensures
            res@ == true_positions(self.tags(), self.tags().len() as int),
    {
        let n = self.words.len();
        let mut rows: Vec<u32> = Vec::new();
        let mut w: usize = 0;
        while w < n
            invariant
                w <= n,
                n == self.words@.len(),
                n == word_count(self.len as int),
                rows@ == true_positions(self.tags(), self.covered(w as int * 64)),
                forall|ww: int, b: int|
                    0 <= ww < self.words@.len() && 0 <= b < 64 && ww * 64 + b >= self.len ==> !(#[trigger] bit_of(self.words@[ww], b as u64)),
            decreases n - w,
        {
            let word = self.words[w];
            let mut b: u64 = 0;
            while b < 64
                invariant
                    b <= 64,
                    w < n,
                    n == self.words@.len(),
                    word == self.words@[w as int],
                    rows@ == true_positions(self.tags(), self.covered(w as int * 64 + b as int)),
                    forall|ww: int, bb: int|
                        0 <= ww < self.words@.len() && 0 <= bb < 64 && ww * 64 + bb >= self.len
                            ==> !(#[trigger] bit_of(self.words@[ww], bb as u64)),
                decreases 64 - b,
            {
                let ghost p = w as int * 64 + b as int;
                proof {
                    assert(p / 64 == w && p % 64 == b) by (nonlinear_arith)
                        requires
                            p == w * 64 + b,
                            b < 64,
                    ;
                }
                if word != 0 && (word >> b) & 1u64 == 1u64 {
                    proof {
                        if p >= self.len {
                            assert(!bit_of(self.words@[w as int], (b as int) as u64));
                            assert(bit_of(word, b));
                        }
                    }
                    let row = w * 64 + b as usize;
                    rows.push(#[verifier::truncate] (row as u32));
                    proof {
                        assert(self.covered(p + 1) == p + 1);
                        assert(self.tags()[p]);
                    }
                } else {
                    proof {
                        if word == 0 {
                            lemma_zero_word(b);
                        }
                        if p < self.len {
                            assert(!self.tags()[p]);
                        }
                    }
                }
                b += 1;
            }
            w += 1;
        }
        proof {
            assert(self.covered(n as int * 64) == self.len) by (nonlinear_arith)
                requires
                    n == word_count(self.len as int),
            ;
        }
        rows
    }

    /// Positions below `p` that hold rows.
    spec fn covered(&self, p: int) -> int {
        if p < self.len {
            p
        } else {
            self.len as int
        }
    }
}

/// The number of tagged rows is the length of the list of tagged rows.
pub proof fn law_count_is_tagged_rows_len(tags: Seq<bool>, n: int)
    ensures
        count_true(tags, n) == true_positions(tags, n).len(),
    decreases n,
{
    if n > 0 {
        law_count_is_tagged_rows_len(tags, n - 1);
    }
}


/// The positions of the `true` entries among the first `n` of `s` are
/// strictly ascending, all below `n`, and hold exactly the rows whose entry is
/// `true` (row ids fit in 32 bits).
proof fn lemma_true_positions(s: Seq<bool>, n: int)
    requires
        0 <= n <= s.len(),
        n <= 0x1_0000_0000,
    ensures
        forall|i: int, j: int|
            0 <= i < j < true_positions(s, n).len() ==> true_positions(s, n)[i] < true_positions(s, n)[j],
        forall|i: int| 0 <= i < true_positions(s, n).len() ==> (true_positions(s, n)[i] as int) < n,
        forall|r: int| 0 <= r < n ==> (true_positions(s, n).contains(r as u32) <==> s[r]),
    decreases n,
{
    if n > 0 {
        lemma_true_positions(s, n - 1);
        let prev = true_positions(s, n - 1);
        let cur = true_positions(s, n);
        assert forall|r: int| 0 <= r < n implies (cur.contains(r as u32) <==> s[r]) by {
            if r < n - 1 {
                if s[n - 1] {
                    assert(cur == prev.push((n - 1) as u32));
                    if cur.contains(r as u32) {
                        let k = choose|k: int| 0 <= k < cur.len() && cur[k] == r as u32;
                        if k < prev.len() {
                            assert(prev[k] == r as u32);
                        }
                    }
                    if prev.contains(r as u32) {
                        let k = choose|k: int| 0 <= k < prev.len() && prev[k] == r as u32;
                        assert(cur[k] == r as u32);
                    }
                }
            } else {
                if s[n - 1] {
                    assert(cur[prev.len() as int] == (n - 1) as u32);
                } else if cur.contains(r as u32) {
                    let k = choose|k: int| 0 <= k < cur.len() && cur[k] == r as u32;
                    assert((prev[k] as int) < n - 1);
                }
            }
        }
    }
}

/// The tagged-row list of a store is strictly ascending, names only rows of
/// the store, and holds exactly the tagged rows (for stores of at most 2^32
/// rows, whose ids fit in 32 bits).
pub proof fn law_tagged_rows_sorted_and_exact(store: TagStore)
    requires
        store.wf(),
        store.tags().len() <= 0x1_0000_0000,
    ensures
        ({
            let rows = true_positions(store.tags(), store.tags().len() as int);
            &&& forall|i: int, j: int| 0 <= i < j < rows.len() ==> rows[i] < rows[j]
            &&& forall|i: int| 0 <= i < rows.len() ==> (rows[i] as int) < store.tags().len()
            &&& forall|r: int| 0 <= r < store.tags().len() ==> (rows.contains(r as u32) <==> store.tags()[r])
        }),
{
    lemma_true_positions(store.tags(), store.tags().len() as int);
}

} // verus!
