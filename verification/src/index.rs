//! Zero-load record indexing.
//!
//! One scan records the byte offset where each record begins, so record `i`
//! spans `starts[i] .. starts[i + 1]`. Two scanners share this representation:
//! - [`LineIndex::build`]: every newline is a record boundary.
//! - [`LineIndex::build_quoted`]: a newline inside a quoted field is field data,
//!   so one record may span several physical lines. Its quoting grammar is the
//!   one [`crate::parser::split_fields`] uses (a quote opens a quoted field only
//!   at the start of a field; `""` is an escaped quote).

use vstd::prelude::*;
use crate::scan::{count_byte, count_of, find_byte, find_either};

verus! {

/// Upper bound, in bytes, of a quoted region that may absorb newlines in
/// [`LineIndex::build_quoted`]. Past this span the opening quote is demoted
/// to literal data and the absorbed newlines become record boundaries again.
pub const MAX_QUOTED_SPAN_BYTES: usize = 0x10_0000;

/// Byte offsets of every record start, terminated by a sentinel equal to the
/// input length so the last record has a well-defined end.
pub struct LineIndex {
    starts: Vec<u64>,
}

/// A well-formed offset table: it starts at 0, strictly increases, and every
/// offset fits in `usize`.
pub open spec fn starts_wf(s: Seq<u64>) -> bool {
    &&& s.len() >= 1
    &&& s[0] == 0
    &&& forall|i: int, j: int| 0 <= i < j < s.len() ==> s[i] < s[j]
    &&& s.last() <= usize::MAX
}

/// Appends the end-of-input sentinel unless the offsets already end there.
pub open spec fn with_sentinel(starts: Seq<u64>, len: int) -> Seq<u64> {
    if starts.len() > 0 && starts.last() == len as u64 {
        starts
    } else {
        starts.push(len as u64)
    }
}

/// Successors of the newlines among the first `upto` bytes, in order.
pub open spec fn newline_starts(data: Seq<u8>, upto: int) -> Seq<u64>
    decreases upto,
{
    if upto <= 0 {
        seq![]
    } else if data[upto - 1] == 10u8 {
        newline_starts(data, upto - 1).push(upto as u64)
    } else {
        newline_starts(data, upto - 1)
    }
}

/// Record starts when every newline ends a record.
pub open spec fn plain_record_starts(data: Seq<u8>) -> Seq<u64> {
    with_sentinel(seq![0u64] + newline_starts(data, data.len() as int), data.len() as int)
}

/// The state of the quote-aware scanner after some prefix of the input.
pub struct QuoteScan {
    /// Confirmed record starts.
    pub starts: Seq<u64>,
    /// Newline successors absorbed by the open quoted region.
    pub pending: Seq<u64>,
    /// Whether a quoted region is open.
    pub in_quotes: bool,
    /// Position of the quote that opened the current quoted region.
    pub open_pos: int,
    /// Positions below this one belong to an escaped quote pair already read.
    pub skip_until: int,
}

/// True when `data` begins with the UTF-8 byte-order mark.
pub open spec fn has_bom(data: Seq<u8>) -> bool {
    data.len() >= 3 && data[0] == 0xEFu8 && data[1] == 0xBBu8 && data[2] == 0xBFu8
}

/// The position of the first field of the input (after a byte-order mark).
pub open spec fn first_field_pos(data: Seq<u8>) -> int {
    if has_bom(data) {
        3
    } else {
        0
    }
}

/// A quote at `pos` opens a quoted field when it starts a field: the first
/// field of the input, or right after a delimiter or a newline.
pub open spec fn at_field_start(data: Seq<u8>, delim: u8, pos: int) -> bool {
    pos == first_field_pos(data) || (pos > 0 && (data[pos - 1] == delim || data[pos - 1] == 10u8))
}

/// One step of the quote-aware scanner: the effect of the byte at `pos`.
pub open spec fn quoted_step(data: Seq<u8>, delim: u8, quote: u8, s: QuoteScan, pos: int) -> QuoteScan {
    if pos < s.skip_until {
        s
    } else if data[pos] == 10u8 {
        if !s.in_quotes {
            QuoteScan { starts: s.starts.push((pos + 1) as u64), ..s }
        } else if pos - s.open_pos > MAX_QUOTED_SPAN_BYTES {
            // Runaway quote: demoted to a literal.
            QuoteScan {
                starts: (s.starts + s.pending).push((pos + 1) as u64),
                pending: seq![],
                in_quotes: false,
                ..s
            }
        } else {
            QuoteScan { pending: s.pending.push((pos + 1) as u64), ..s }
        }
    } else if data[pos] == quote {
        if s.in_quotes {
            if pos + 1 < data.len() && data[pos + 1] == quote {
                QuoteScan { skip_until: pos + 2, ..s }
            } else {
                QuoteScan { in_quotes: false, pending: seq![], ..s }
            }
        } else if at_field_start(data, delim, pos) {
            QuoteScan { in_quotes: true, open_pos: pos, ..s }
        } else {
            s
        }
    } else {
        s
    }
}

/// The scanner state after the first `upto` bytes.
pub open spec fn quote_scan(data: Seq<u8>, delim: u8, quote: u8, upto: int) -> QuoteScan
    decreases upto,
{
    if upto <= 0 {
        QuoteScan { starts: seq![0u64], pending: seq![], in_quotes: false, open_pos: 0, skip_until: 0 }
    } else {
        quoted_step(data, delim, quote, quote_scan(data, delim, quote, upto - 1), upto - 1)
    }
}

/// Record starts under RFC 4180 quoting with the runaway-quote guard.
pub open spec fn quoted_record_starts(data: Seq<u8>, delim: u8, quote: u8) -> Seq<u64> {
    let s = quote_scan(data, delim, quote, data.len() as int);
    let starts = if s.in_quotes && data.len() - s.open_pos > MAX_QUOTED_SPAN_BYTES {
        s.starts + s.pending
    } else {
        s.starts
    };
    with_sentinel(starts, data.len() as int)
}

/// The capacity estimate: the line count extrapolated from a 64 KiB sample.
pub open spec fn estimated_lines(data: Seq<u8>) -> int {
    let sample_len: int = if data.len() < 0x1_0000 { data.len() as int } else { 0x1_0000 };
    let newlines = count_of(data.subrange(0, sample_len), 10u8);
    if newlines == 0 {
        16
    } else {
        let avg = if sample_len / newlines as int >= 1 { sample_len / newlines as int } else { 1 };
        let len = data.len() as int;
        if len / avg >= 16 { len / avg } else { 16 }
    }
}

/// Estimate the line count from a 64 KiB sample to size the offset vector.
fn estimate_lines(data: &[u8]) -> (res: usize)
    ensures
        res == estimated_lines(data@),
{
    let sample_len: usize = if data.len() < 0x1_0000 { data.len() } else { 0x1_0000 };
    let newlines = count_byte(10u8, &data[0..sample_len]);
    if newlines == 0 {
        return 16;
    }
    let avg = if sample_len / newlines >= 1 { sample_len / newlines } else { 1 };
    if data.len() / avg >= 16 { data.len() / avg } else { 16 }
}

// ---------------------------------------------------------------------------
// Proofs about the scanners
// ---------------------------------------------------------------------------

/// Scanner invariant after `upto` bytes: confirmed starts strictly increase
/// from 0, pending starts follow them, and everything recorded is at most
/// `upto`.
pub open spec fn scan_wf(s: QuoteScan, upto: int) -> bool {
    &&& s.starts.len() >= 1
    &&& s.starts[0] == 0
    &&& forall|i: int, j: int| 0 <= i < j < s.starts.len() ==> s.starts[i] < s.starts[j]
    &&& forall|i: int, j: int| 0 <= i < j < s.pending.len() ==> s.pending[i] < s.pending[j]
    &&& forall|i: int, j: int|
        0 <= i < s.starts.len() && 0 <= j < s.pending.len() ==> s.starts[i] < s.pending[j]
    &&& forall|i: int| 0 <= i < s.starts.len() ==> s.starts[i] <= upto
    &&& forall|j: int| 0 <= j < s.pending.len() ==> s.pending[j] <= upto
    &&& !s.in_quotes ==> s.pending.len() == 0
    &&& s.in_quotes ==> 0 <= s.open_pos < upto
    &&& 0 <= s.skip_until
}

proof fn lemma_quote_scan_wf(data: Seq<u8>, delim: u8, quote: u8, upto: int)
    requires
        0 <= upto <= data.len(),
        data.len() <= usize::MAX,
    ensures
        scan_wf(quote_scan(data, delim, quote, upto), upto),
    decreases upto,
{
    if upto > 0 {
        lemma_quote_scan_wf(data, delim, quote, upto - 1);
        let s = quote_scan(data, delim, quote, upto - 1);
        let t = quote_scan(data, delim, quote, upto);
        assert(t == quoted_step(data, delim, quote, s, upto - 1));
        let pos = upto - 1;
        if pos >= s.skip_until && data[pos] == 10u8 && s.in_quotes && pos - s.open_pos
            > MAX_QUOTED_SPAN_BYTES {
            let joined = s.starts + s.pending;
            assert forall|i: int, j: int| 0 <= i < j < joined.len() implies joined[i] < joined[j] by {
                if j < s.starts.len() {
                } else if i >= s.starts.len() {
                    assert(joined[i] == s.pending[i - s.starts.len()]);
                    assert(joined[j] == s.pending[j - s.starts.len()]);
                } else {
                    assert(joined[j] == s.pending[j - s.starts.len()]);
                }
            }
            assert forall|i: int| 0 <= i < joined.len() implies joined[i] <= pos by {
                if i >= s.starts.len() {
                    assert(joined[i] == s.pending[i - s.starts.len()]);
                }
            }
        }
    }
}

/// Bytes that are neither the quote nor a newline leave the scanner unchanged.
proof fn lemma_quote_scan_skips(data: Seq<u8>, delim: u8, quote: u8, from: int, to: int)
    requires
        0 <= from <= to <= data.len(),
        forall|j: int| from <= j < to ==> data[j] != quote && data[j] != 10u8,
    ensures
        quote_scan(data, delim, quote, to) == quote_scan(data, delim, quote, from),
    decreases to - from,
{
    if to > from {
        lemma_quote_scan_skips(data, delim, quote, from, to - 1);
    }
}

proof fn lemma_newline_starts_wf(data: Seq<u8>, upto: int)
    requires
        0 <= upto <= data.len(),
        data.len() <= usize::MAX,
    ensures
        forall|i: int, j: int|
            0 <= i < j < newline_starts(data, upto).len() ==> newline_starts(data, upto)[i]
                < newline_starts(data, upto)[j],
        forall|i: int|
            0 <= i < newline_starts(data, upto).len() ==> 1 <= #[trigger] newline_starts(data, upto)[i]
                <= upto,
    decreases upto,
{
    if upto > 0 {
        lemma_newline_starts_wf(data, upto - 1);
        let p = newline_starts(data, upto - 1);
        if data[upto - 1] == 10u8 {
            let q = p.push(upto as u64);
            assert(newline_starts(data, upto) == q);
            assert forall|i: int| 0 <= i < q.len() implies 1 <= #[trigger] q[i] <= upto by {
                if i < p.len() {
                    assert(q[i] == p[i]);
                }
            }
        }
    }
}

proof fn lemma_with_sentinel_wf(starts: Seq<u64>, len: int)
    requires
        0 <= len <= usize::MAX,
        starts.len() >= 1,
        starts[0] == 0,
        forall|i: int, j: int| 0 <= i < j < starts.len() ==> starts[i] < starts[j],
        forall|i: int| 0 <= i < starts.len() ==> starts[i] <= len,
    ensures
        starts_wf(with_sentinel(starts, len)),
        with_sentinel(starts, len).last() == len,
{
}

/// The plain scanner's offsets are well formed.
pub proof fn lemma_plain_record_starts_wf(data: Seq<u8>)
    requires
        data.len() <= usize::MAX,
    ensures
        starts_wf(plain_record_starts(data)),
        plain_record_starts(data).last() == data.len(),
{
    lemma_newline_starts_wf(data, data.len() as int);
    let nl = newline_starts(data, data.len() as int);
    let s = seq![0u64] + nl;
    assert forall|i: int, j: int| 0 <= i < j < s.len() implies s[i] < s[j] by {
        if i > 0 {
            assert(s[i] == nl[i - 1]);
        }
        assert(s[j] == nl[j - 1]);
    }
    assert forall|i: int| 0 <= i < s.len() implies s[i] <= data.len() by {
        if i > 0 {
            assert(s[i] == nl[i - 1]);
        }
    }
    lemma_with_sentinel_wf(s, data.len() as int);
}

/// The quote-aware scanner's offsets are well formed.
pub proof fn lemma_quoted_record_starts_wf(data: Seq<u8>, delim: u8, quote: u8)
    requires
        data.len() <= usize::MAX,
    ensures
        starts_wf(quoted_record_starts(data, delim, quote)),
        quoted_record_starts(data, delim, quote).last() == data.len(),
{
    let n = data.len() as int;
    lemma_quote_scan_wf(data, delim, quote, n);
    let s = quote_scan(data, delim, quote, n);
    if s.in_quotes && n - s.open_pos > MAX_QUOTED_SPAN_BYTES {
        let joined = s.starts + s.pending;
        assert forall|i: int, j: int| 0 <= i < j < joined.len() implies joined[i] < joined[j] by {
            if j < s.starts.len() {
            } else if i >= s.starts.len() {
                assert(joined[i] == s.pending[i - s.starts.len()]);
                assert(joined[j] == s.pending[j - s.starts.len()]);
            } else {
                assert(joined[j] == s.pending[j - s.starts.len()]);
            }
        }
        assert forall|i: int| 0 <= i < joined.len() implies joined[i] <= n by {
            if i >= s.starts.len() {
                assert(joined[i] == s.pending[i - s.starts.len()]);
            }
        }
        lemma_with_sentinel_wf(joined, n);
    } else {
        lemma_with_sentinel_wf(s.starts, n);
    }
}

/// With no quote byte in the input, the quote-aware scanner never leaves the
/// unquoted state and records exactly the newline successors.
proof fn lemma_quote_scan_without_quotes(data: Seq<u8>, delim: u8, quote: u8, upto: int)
    requires
        0 <= upto <= data.len(),
        forall|j: int| 0 <= j < data.len() ==> data[j] != quote,
    ensures
        quote_scan(data, delim, quote, upto).starts == seq![0u64] + newline_starts(data, upto),
        !quote_scan(data, delim, quote, upto).in_quotes,
        quote_scan(data, delim, quote, upto).skip_until == 0,
    decreases upto,
{
    if upto > 0 {
        lemma_quote_scan_without_quotes(data, delim, quote, upto - 1);
        let prev = seq![0u64] + newline_starts(data, upto - 1);
        if data[upto - 1] == 10u8 {
            assert(prev.push(upto as u64) =~= seq![0u64] + newline_starts(data, upto));
        }
    }
}

/// Law: on input without any quote byte, the quote-aware index equals the
/// plain newline index.
pub proof fn law_unquoted_input_indexes_plainly(data: Seq<u8>, delim: u8, quote: u8)
    requires
        forall|j: int| 0 <= j < data.len() ==> data[j] != quote,
    ensures
        quoted_record_starts(data, delim, quote) == plain_record_starts(data),
{
    lemma_quote_scan_without_quotes(data, delim, quote, data.len() as int);
}

/// `e` is where a line begins: the input start, or right after a newline.
pub open spec fn is_line_start(data: Seq<u8>, e: int) -> bool {
    e == 0 || (1 <= e <= data.len() && data[e - 1] == 10u8)
}

/// Every start the scanner records, confirmed or pending, begins a line.
proof fn lemma_scan_line_starts(data: Seq<u8>, delim: u8, quote: u8, upto: int)
    requires
        0 <= upto <= data.len(),
        data.len() < u64::MAX,
    ensures
        forall|i: int|
            0 <= i < quote_scan(data, delim, quote, upto).starts.len() ==> is_line_start(
                data,
                #[trigger] quote_scan(data, delim, quote, upto).starts[i] as int,
            ),
        forall|j: int|
            0 <= j < quote_scan(data, delim, quote, upto).pending.len() ==> is_line_start(
                data,
                #[trigger] quote_scan(data, delim, quote, upto).pending[j] as int,
            ),
    decreases upto,
{
    if upto > 0 {
        lemma_scan_line_starts(data, delim, quote, upto - 1);
        let s = quote_scan(data, delim, quote, upto - 1);
        let n = quote_scan(data, delim, quote, upto);
        let pos = upto - 1;
        if pos >= s.skip_until && data[pos] == 10u8 {
            assert(((pos + 1) as u64) as int == pos + 1);
            if !s.in_quotes {
                assert forall|i: int| 0 <= i < n.starts.len() implies is_line_start(
                    data,
                    #[trigger] n.starts[i] as int,
                ) by {
                    if i < s.starts.len() {
                        assert(n.starts[i] == s.starts[i]);
                    }
                }
            } else if pos - s.open_pos > MAX_QUOTED_SPAN_BYTES {
                let joined = s.starts + s.pending;
                assert forall|i: int| 0 <= i < n.starts.len() implies is_line_start(
                    data,
                    #[trigger] n.starts[i] as int,
                ) by {
                    if i < s.starts.len() {
                        assert(n.starts[i] == s.starts[i]);
                    } else if i < joined.len() {
                        assert(n.starts[i] == s.pending[i - s.starts.len()]);
                    }
                }
            } else {
                assert forall|j: int| 0 <= j < n.pending.len() implies is_line_start(
                    data,
                    #[trigger] n.pending[j] as int,
                ) by {
                    if j < s.pending.len() {
                        assert(n.pending[j] == s.pending[j]);
                    }
                }
            }
        }
    }
}

/// Law: the quote-aware index only joins whole lines. Every record start is
/// the input start, the input end, or the position right after a newline: a
/// quoted region can absorb line breaks but never splits a line.
pub proof fn law_quoted_records_join_whole_lines(data: Seq<u8>, delim: u8, quote: u8)
    requires
        data.len() < u64::MAX,
    ensures
        forall|k: int|
            0 <= k < quoted_record_starts(data, delim, quote).len() ==> {
                let e = #[trigger] quoted_record_starts(data, delim, quote)[k] as int;
                e == data.len() || is_line_start(data, e)
            },
{
    lemma_scan_line_starts(data, delim, quote, data.len() as int);
    let s = quote_scan(data, delim, quote, data.len() as int);
    let starts = if s.in_quotes && data.len() - s.open_pos > MAX_QUOTED_SPAN_BYTES {
        s.starts + s.pending
    } else {
        s.starts
    };
    assert forall|i: int| 0 <= i < starts.len() implies is_line_start(data, #[trigger] starts[i] as int) by {
        if i >= s.starts.len() {
            assert(starts[i] == s.pending[i - s.starts.len()]);
        } else {
            assert(starts[i] == s.starts[i]);
        }
    }
    let r = quoted_record_starts(data, delim, quote);
    assert forall|k: int| 0 <= k < r.len() implies {
        let e = #[trigger] r[k] as int;
        e == data.len() || is_line_start(data, e)
    } by {
        if k < starts.len() {
            assert(r[k] == starts[k]);
        }
    }
}

// ---------------------------------------------------------------------------
// Executable scanners
// ---------------------------------------------------------------------------

impl LineIndex {
    #[verifier::type_invariant]
    spec fn inv(&self) -> bool {
        starts_wf(self.starts@)
    }

    /// The record start offsets, ending with the input length.
    pub closed spec fn starts(&self) -> Seq<u64> {
        self.starts@
    }

    /// Build the index by scanning `data` once for `\n`. Every newline is a
    /// record boundary; quoting is ignored.
    pub fn build(data: &[u8]) -> (res: LineIndex)
        ensures
            res.starts() == plain_record_starts(data@),
    {
        let cap = estimate_lines(data);
        let mut starts: Vec<u64> = Vec::with_capacity(if cap < usize::MAX { cap + 1 } else { cap });
        starts.push(0);
        let mut cursor: usize = 0;
        while cursor < data.len()
            invariant
                cursor <= data@.len(),
                starts@ == seq![0u64] + newline_starts(data@, cursor as int),
            decreases data@.len() - cursor,
        {
            let rest = &data[cursor..data.len()];
            match find_byte(10u8, rest) {
                None => {
                    proof {
                        lemma_newline_starts_skip(data@, cursor as int, data@.len() as int);
                    }
                    cursor = data.len();
                },
                Some(k) => {
                    let pos = cursor + k;
                    proof {
                        lemma_newline_starts_skip(data@, cursor as int, pos as int);
                    }
                    starts.push((pos + 1) as u64);
                    proof {
                        assert(data@[pos as int] == 10u8);
                        assert((seq![0u64] + newline_starts(data@, pos as int)).push((pos + 1) as u64)
                            =~= seq![0u64] + newline_starts(data@, pos + 1));
                    }
                    cursor = pos + 1;
                },
            }
        }
        proof {
            lemma_plain_record_starts_wf(data@);
        }
        Self::finish(starts, data.len() as u64)
    }

    /// Build the index with RFC 4180 quote handling: a newline inside a quoted
    /// field is part of the field, so the surrounding record spans several
    /// physical lines. An unterminated quote that absorbs more than
    /// [`MAX_QUOTED_SPAN_BYTES`] is demoted to literal data.
    pub fn build_quoted(data: &[u8], delim: u8, quote: u8) -> (res: LineIndex)
        ensures
            res.starts() == quoted_record_starts(data@, delim, quote),
    {
        let ghost d = data@;
        let cap = estimate_lines(data);
        let mut starts: Vec<u64> = Vec::with_capacity(if cap < usize::MAX { cap + 1 } else { cap });
        starts.push(0);
        let has_bom = data.len() >= 3 && data[0] == 0xEF && data[1] == 0xBB && data[2] == 0xBF;
        let first_field: usize = if has_bom { 3 } else { 0 };
        let mut in_quotes = false;
        let mut open_pos: usize = 0;
        let mut pending: Vec<u64> = Vec::new();
        let mut skip_until: usize = 0;
        let mut cursor: usize = 0;
        proof {
            assert(starts@ =~= seq![0u64]);
            assert(pending@ =~= Seq::<u64>::empty());
        }
        while cursor < data.len()
            invariant
                cursor <= d.len(),
                d == data@,
                first_field as int == first_field_pos(d),
                quote_scan(d, delim, quote, cursor as int) == (QuoteScan {
                    starts: starts@,
                    pending: pending@,
                    in_quotes,
                    open_pos: open_pos as int,
                    skip_until: skip_until as int,
                }),
            decreases d.len() - cursor,
        {
            proof {
                lemma_quote_scan_wf(d, delim, quote, cursor as int);
            }
            let rest = &data[cursor..data.len()];
            match find_either(quote, 10u8, rest) {
                None => {
                    proof {
                        assert forall|j: int| cursor <= j < d.len() as int implies d[j] != quote && d[j] != 10u8 by {
                            assert(d[j] == rest@[j - cursor]);
                        }
                        lemma_quote_scan_skips(d, delim, quote, cursor as int, d.len() as int);
                    }
                    cursor = data.len();
                },
                Some(k) => {
                    let pos = cursor + k;
                    proof {
                        assert forall|j: int| cursor <= j < pos as int implies d[j] != quote && d[j] != 10u8 by {
                            assert(d[j] == rest@[j - cursor]);
                        }
                        lemma_quote_scan_skips(d, delim, quote, cursor as int, pos as int);
                    }
                    let ghost before = quote_scan(d, delim, quote, pos as int);
                    if pos >= skip_until {
                        if data[pos] == 10u8 {
                            if !in_quotes {
                                starts.push((pos + 1) as u64);
                            } else if pos - open_pos > MAX_QUOTED_SPAN_BYTES {
                                starts.append(&mut pending);
                                starts.push((pos + 1) as u64);
                                in_quotes = false;
                            } else {
                                pending.push((pos + 1) as u64);
                            }
                        } else if in_quotes {
                            if pos + 1 < data.len() && data[pos + 1] == quote {
                                skip_until = pos + 2;
                            } else {
                                in_quotes = false;
                                pending.clear();
                            }
                        } else {
                            let starts_field = pos == first_field || (pos > 0 && (data[pos - 1]
                                == delim || data[pos - 1] == 10u8));
                            if starts_field {
                                in_quotes = true;
                                open_pos = pos;
                            }
                        }
                    }
                    proof {
                        assert(quote_scan(d, delim, quote, pos + 1) == quoted_step(
                            d,
                            delim,
                            quote,
                            before,
                            pos as int,
                        ));
                        assert(quote_scan(d, delim, quote, pos + 1) == (QuoteScan {
                            starts: starts@,
                            pending: pending@,
                            in_quotes,
                            open_pos: open_pos as int,
                            skip_until: skip_until as int,
                        }));
                    }
                    cursor = pos + 1;
                },
            }
        }
        proof {
            lemma_quote_scan_wf(d, delim, quote, d.len() as int);
        }
        if in_quotes && data.len() - open_pos > MAX_QUOTED_SPAN_BYTES {
            starts.append(&mut pending);
        }
        proof {
            lemma_quoted_record_starts_wf(d, delim, quote);
        }
        Self::finish(starts, data.len() as u64)
    }

    /// Append the end-of-input sentinel and finalize the offset vector.
    fn finish(starts: Vec<u64>, file_len: u64) -> (res: LineIndex)
        requires
            starts_wf(with_sentinel(starts@, file_len as int)),
        ensures
            res.starts() == with_sentinel(starts@, file_len as int),
    {
        let mut starts = starts;
        let n = starts.len();
        if !(n > 0 && starts[n - 1] == file_len) {
            starts.push(file_len);
        }
        LineIndex { starts }
    }

    /// Number of records.
    pub fn line_count(&self) -> (res: usize)
        ensures
            res == self.starts().len() - 1,
            starts_wf(self.starts()),
    {
        proof {
            use_type_invariant(self);
        }
        self.starts.len() - 1
    }

    /// Byte span `[start, end)` of record `i`, including its trailing
    /// newline (and `\r` for CRLF). `None` when `i` is out of range.
    pub fn line_span(&self, i: usize) -> (res: Option<(usize, usize)>)
        ensures
            starts_wf(self.starts()),
            res == if i + 1 < self.starts().len() {
                Some((self.starts()[i as int] as usize, self.starts()[i + 1] as usize))
            } else {
                None::<(usize, usize)>
            },
            res matches Some((s, e)) ==> s < e,
    {
        proof {
            use_type_invariant(self);
        }
        if i < self.starts.len() && i + 1 < self.starts.len() {
            let start = self.starts[i];
            let end = self.starts[i + 1];
            Some((start as usize, end as usize))
        } else {
            None
        }
    }
}

proof fn lemma_newline_starts_skip(data: Seq<u8>, from: int, to: int)
    requires
        0 <= from <= to <= data.len(),
        forall|j: int| 0 <= j < to - from ==> data.subrange(from, data.len() as int)[j] != 10u8,
    ensures
        newline_starts(data, to) == newline_starts(data, from),
    decreases to - from,
{
    if to > from {
        assert(data.subrange(from, data.len() as int)[to - 1 - from] == data[to - 1]);
        lemma_newline_starts_skip(data, from, to - 1);
    }
}

} // verus!
