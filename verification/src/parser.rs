//! Field splitting within a single record.
//!
//! A record is normally one physical line but may span several when a quoted
//! field contains newlines. Splitting uses the quoting grammar the indexer
//! uses:
//! - A quote is only special at the start of a field (record start or right
//!   after a delimiter). A field that starts with `quote` is a quoted field.
//! - Inside a quoted field, `""` is an escaped literal quote; delimiters and
//!   newlines are field data.
//! - A quote anywhere else (mid-field, or after the closing quote) is literal.
//! - An unterminated quoted field runs to the end of the record.
//!
//! Splitting yields byte ranges; callers materialize a `String` only for the
//! cells they need.

use vstd::prelude::*;
use smallvec::SmallVec;
use crate::encoding::{sanitize, sanitized};
use crate::scan::find_byte;

verus! {

/// Field byte ranges for a single record, held inline (without allocation)
/// for up to 32 columns.
#[verifier::external_body]
pub struct FieldRanges {
    ranges: SmallVec<[(usize, usize); 32]>,
}

/// The ranges a [`FieldRanges`] holds, in order.
pub uninterp spec fn field_range_items(v: FieldRanges) -> Seq<(usize, usize)>;

/// The number of ranges a [`FieldRanges`] can hold before growing it would
/// overflow the address space (`SmallVec` then panics).
pub open spec fn field_range_capacity() -> int {
    if usize::BITS == 64 {
        0x400_0000_0000_0000
    } else {
        0x400_0000
    }
}

/// `SmallVec::new`: an empty vector.
#[verifier::external_body]
fn ranges_new() -> (res: FieldRanges)
    ensures
        field_range_items(res) == Seq::<(usize, usize)>::empty(),
{
    FieldRanges { ranges: SmallVec::new() }
}

/// `SmallVec::push`: appends one range.
#[verifier::external_body]
fn ranges_push(v: &mut FieldRanges, r: (usize, usize))
    requires
        field_range_items(*old(v)).len() + 1 < field_range_capacity(),
    ensures
        field_range_items(*final(v)) == field_range_items(*old(v)).push(r),
{
    v.ranges.push(r)
}

/// `SmallVec::len`: the number of ranges held.
#[verifier::external_body]
fn ranges_len(v: &FieldRanges) -> (res: usize)
    ensures
        res == field_range_items(*v).len(),
{
    v.ranges.len()
}

/// `<[T]>::get` through `SmallVec`'s `Deref`: the range at `i`, if any.
#[verifier::external_body]
fn ranges_get(v: &FieldRanges, i: usize) -> (res: Option<(usize, usize)>)
    ensures
        res == if i < field_range_items(*v).len() {
            Some(field_range_items(*v)[i as int])
        } else {
            None::<(usize, usize)>
        },
{
    v.ranges.get(i).copied()
}

impl FieldRanges {
    /// Number of ranges.
    pub fn len(&self) -> (res: usize)
        ensures
            res == field_range_items(*self).len(),
    {
        ranges_len(self)
    }

    /// The range at `i`, or `None` past the end.
    pub fn get(&self, i: usize) -> (res: Option<(usize, usize)>)
        ensures
            res == if i < field_range_items(*self).len() {
                Some(field_range_items(*self)[i as int])
            } else {
                None::<(usize, usize)>
            },
    {
        ranges_get(self, i)
    }

    /// All ranges, in order, as a vector.
    pub fn to_vec(&self) -> (res: Vec<(usize, usize)>)
        ensures
            res@ == field_range_items(*self),
    {
        let n = ranges_len(self);
        let mut out: Vec<(usize, usize)> = Vec::new();
        let mut i: usize = 0;
        while i < n
            invariant
                i <= n,
                n == field_range_items(*self).len(),
                out@ == field_range_items(*self).subrange(0, i as int),
            decreases n - i,
        {
            match ranges_get(self, i) {
                Some(r) => out.push(r),
                None => {},
            }
            proof {
                assert(field_range_items(*self).subrange(0, i + 1) =~= field_range_items(
                    *self,
                ).subrange(0, i as int).push(field_range_items(*self)[i as int]));
            }
            i += 1;
        }
        proof {
            assert(field_range_items(*self).subrange(0, n as int) =~= field_range_items(*self));
        }
        out
    }
}

// ---------------------------------------------------------------------------
// The splitting grammar
// ---------------------------------------------------------------------------

/// Scanning a quoted field body from `i` (just after the opening quote): the
/// position after the closing quote, or the end of the record.
pub open spec fn quoted_end(line: Seq<u8>, quote: u8, i: int) -> int
    decreases line.len() - i,
{
    if i >= line.len() {
        line.len() as int
    } else if line[i] == quote {
        if i + 1 < line.len() && line[i + 1] == quote {
            quoted_end(line, quote, i + 2)
        } else {
            i + 1
        }
    } else {
        quoted_end(line, quote, i + 1)
    }
}

/// The first delimiter at or after `i`, or the end of the record.
pub open spec fn body_end(line: Seq<u8>, delim: u8, i: int) -> int
    decreases line.len() - i,
{
    if i >= line.len() {
        line.len() as int
    } else if line[i] == delim {
        i
    } else {
        body_end(line, delim, i + 1)
    }
}

/// Where the field that starts at `start` ends: past its quoted part, up to
/// the next delimiter (or the end of the record).
pub open spec fn field_end(line: Seq<u8>, delim: u8, quote: u8, start: int) -> int {
    let i = if start < line.len() && line[start] == quote {
        quoted_end(line, quote, start + 1)
    } else {
        start
    };
    body_end(line, delim, i)
}

proof fn lemma_quoted_end_bounds(line: Seq<u8>, quote: u8, i: int)
    requires
        0 <= i,
    ensures
        i <= quoted_end(line, quote, i) || i > line.len(),
        quoted_end(line, quote, i) <= line.len(),
    decreases line.len() - i,
{
    if i < line.len() {
        if line[i] == quote {
            if i + 1 < line.len() && line[i + 1] == quote {
                lemma_quoted_end_bounds(line, quote, i + 2);
            }
        } else {
            lemma_quoted_end_bounds(line, quote, i + 1);
        }
    }
}

proof fn lemma_body_end_bounds(line: Seq<u8>, delim: u8, i: int)
    requires
        0 <= i <= line.len(),
    ensures
        i <= body_end(line, delim, i) <= line.len(),
        body_end(line, delim, i) < line.len() ==> line[body_end(line, delim, i)] == delim,
    decreases line.len() - i,
{
    if i < line.len() && line[i] != delim {
        lemma_body_end_bounds(line, delim, i + 1);
    }
}

/// A field ends at or after its start and within the record; when it ends
/// before the record end it ends at a delimiter.
pub proof fn lemma_field_end_bounds(line: Seq<u8>, delim: u8, quote: u8, start: int)
    requires
        0 <= start <= line.len(),
    ensures
        start <= field_end(line, delim, quote, start) <= line.len(),
        field_end(line, delim, quote, start) < line.len() ==> line[field_end(
            line,
            delim,
            quote,
            start,
        )] == delim,
{
    if start < line.len() && line[start] == quote {
        lemma_quoted_end_bounds(line, quote, start + 1);
        lemma_body_end_bounds(line, delim, quote_end_or_len(line, quote, start));
    } else {
        lemma_body_end_bounds(line, delim, start);
    }
}

spec fn quote_end_or_len(line: Seq<u8>, quote: u8, start: int) -> int {
    quoted_end(line, quote, start + 1)
}

/// The field ranges of a record from the field that starts at `start` on.
pub open spec fn ranges_from(line: Seq<u8>, delim: u8, quote: u8, start: int) -> Seq<(usize, usize)>
    decreases line.len() - start,
{
    if start < 0 || start > line.len() {
        seq![]
    } else {
        let e = field_end(line, delim, quote, start);
        proof {
            lemma_field_end_bounds(line, delim, quote, start);
        }
        if e < line.len() {
            seq![(start as usize, e as usize)] + ranges_from(line, delim, quote, e + 1)
        } else {
            seq![(start as usize, line.len() as usize)]
        }
    }
}

/// All field ranges of a record, left to right. Ranges include surrounding
/// quotes; a record always has at least one (possibly empty) field.
pub open spec fn record_fields(line: Seq<u8>, delim: u8, quote: u8) -> Seq<(usize, usize)> {
    ranges_from(line, delim, quote, 0)
}

proof fn lemma_ranges_from_len(line: Seq<u8>, delim: u8, quote: u8, start: int)
    requires
        0 <= start <= line.len(),
    ensures
        1 <= ranges_from(line, delim, quote, start).len() <= line.len() - start + 1,
    decreases line.len() - start,
{
    lemma_field_end_bounds(line, delim, quote, start);
    let e = field_end(line, delim, quote, start);
    if e < line.len() {
        lemma_ranges_from_len(line, delim, quote, e + 1);
    }
}

/// A record has at least one field.
pub proof fn lemma_record_fields_nonempty(line: Seq<u8>, delim: u8, quote: u8)
    ensures
        record_fields(line, delim, quote).len() >= 1,
{
    lemma_ranges_from_len(line, delim, quote, 0);
}

/// Every range of a record lies within it, in order.
pub proof fn lemma_record_fields_in_bounds(line: Seq<u8>, delim: u8, quote: u8, start: int)
    requires
        0 <= start <= line.len(),
        line.len() <= usize::MAX,
    ensures
        forall|k: int|
            0 <= k < ranges_from(line, delim, quote, start).len() ==> {
                let r = #[trigger] ranges_from(line, delim, quote, start)[k];
                start <= r.0 <= r.1 <= line.len()
            },
    decreases line.len() - start,
{
    lemma_field_end_bounds(line, delim, quote, start);
    let e = field_end(line, delim, quote, start);
    if e < line.len() {
        lemma_record_fields_in_bounds(line, delim, quote, e + 1);
        let rest = ranges_from(line, delim, quote, e + 1);
        let all = ranges_from(line, delim, quote, start);
        assert forall|k: int| 0 <= k < all.len() implies {
            let r = #[trigger] all[k];
            start <= r.0 <= r.1 <= line.len()
        } by {
            if k > 0 {
                assert(all[k] == rest[k - 1]);
            }
        }
    }
}

/// Number of `delim` bytes in `line` at or after `i`.
pub open spec fn delim_count(line: Seq<u8>, delim: u8, i: int) -> nat
    decreases line.len() - i,
{
    if i < 0 || i >= line.len() {
        0
    } else {
        delim_count(line, delim, i + 1) + if line[i] == delim { 1nat } else { 0nat }
    }
}

/// Delimiters before `e` (a delimiter) count at least once more than those
/// after it; exactly once more when none lies in `[i, e)`.
proof fn lemma_delim_count_step(line: Seq<u8>, delim: u8, i: int, e: int)
    requires
        0 <= i <= e < line.len(),
        line[e] == delim,
    ensures
        delim_count(line, delim, i) >= delim_count(line, delim, e + 1) + 1,
        (forall|j: int| i <= j < e ==> line[j] != delim) ==> delim_count(line, delim, i)
            == delim_count(line, delim, e + 1) + 1,
    decreases e - i,
{
    if i < e {
        lemma_delim_count_step(line, delim, i + 1, e);
    }
}

/// The ranges from `start` on tile the rest of the record: the first starts
/// at `start`, the last ends at the record end, each is ordered, and
/// neighbours are split by exactly one delimiter byte.
proof fn lemma_ranges_tile(line: Seq<u8>, delim: u8, quote: u8, start: int)
    requires
        0 <= start <= line.len(),
        line.len() <= usize::MAX,
    ensures
        ({
            let rs = ranges_from(line, delim, quote, start);
            &&& rs.len() >= 1
            &&& rs[0].0 == start
            &&& rs[rs.len() - 1].1 == line.len()
            &&& forall|k: int| 0 <= k < rs.len() ==> (#[trigger] rs[k]).0 <= rs[k].1
            &&& forall|k: int|
                0 <= k < rs.len() - 1 ==> line[(#[trigger] rs[k]).1 as int] == delim && rs[k + 1].0
                    == rs[k].1 + 1
        }),
    decreases line.len() - start,
{
    lemma_field_end_bounds(line, delim, quote, start);
    lemma_ranges_from_len(line, delim, quote, start);
    let e = field_end(line, delim, quote, start);
    let rs = ranges_from(line, delim, quote, start);
    if e < line.len() {
        lemma_ranges_tile(line, delim, quote, e + 1);
        let rest = ranges_from(line, delim, quote, e + 1);
        assert(rs == seq![(start as usize, e as usize)] + rest);
        assert forall|k: int| 0 <= k < rs.len() implies (#[trigger] rs[k]).0 <= rs[k].1 by {
            if k > 0 {
                assert(rs[k] == rest[k - 1]);
            }
        }
        assert forall|k: int| 0 <= k < rs.len() - 1 implies line[(#[trigger] rs[k]).1 as int] == delim
            && rs[k + 1].0 == rs[k].1 + 1 by {
            if k > 0 {
                assert(rs[k] == rest[k - 1]);
                assert(rs[k + 1] == rest[k]);
            }
        }
    }
}

/// The field ranges from `start` are at most one more than the delimiters
/// after `start`, and exactly one more when the record has no quote byte.
proof fn lemma_ranges_count(line: Seq<u8>, delim: u8, quote: u8, start: int)
    requires
        0 <= start <= line.len(),
    ensures
        ranges_from(line, delim, quote, start).len() <= delim_count(line, delim, start) + 1,
        (forall|j: int| 0 <= j < line.len() ==> line[j] != quote) ==> ranges_from(
            line,
            delim,
            quote,
            start,
        ).len() == delim_count(line, delim, start) + 1,
    decreases line.len() - start,
{
    lemma_field_end_bounds(line, delim, quote, start);
    let e = field_end(line, delim, quote, start);
    if e < line.len() {
        lemma_ranges_count(line, delim, quote, e + 1);
        lemma_delim_count_step(line, delim, start, e);
        if forall|j: int| 0 <= j < line.len() ==> line[j] != quote {
            lemma_body_end_first(line, delim, start);
        }
    } else {
        lemma_delim_count_zero(line, delim, quote, start);
    }
}

/// With no quote at `start`, a field runs to the first delimiter.
proof fn lemma_body_end_first(line: Seq<u8>, delim: u8, i: int)
    requires
        0 <= i <= line.len(),
    ensures
        forall|j: int| i <= j < body_end(line, delim, i) ==> line[j] != delim,
    decreases line.len() - i,
{
    if i < line.len() && line[i] != delim {
        lemma_body_end_first(line, delim, i + 1);
    }
}

/// When the field from `start` reaches the record end and the record has no
/// quote byte, no delimiter follows `start`.
proof fn lemma_delim_count_zero(line: Seq<u8>, delim: u8, quote: u8, start: int)
    requires
        0 <= start <= line.len(),
        field_end(line, delim, quote, start) == line.len(),
    ensures
        (forall|j: int| 0 <= j < line.len() ==> line[j] != quote) ==> delim_count(line, delim, start)
            == 0,
    decreases line.len() - start,
{
    if forall|j: int| 0 <= j < line.len() ==> line[j] != quote {
        lemma_body_end_first(line, delim, start);
        lemma_no_delims(line, delim, start);
    }
}

proof fn lemma_no_delims(line: Seq<u8>, delim: u8, i: int)
    requires
        0 <= i <= line.len(),
        forall|j: int| i <= j < line.len() ==> line[j] != delim,
    ensures
        delim_count(line, delim, i) == 0,
    decreases line.len() - i,
{
    if i < line.len() {
        lemma_no_delims(line, delim, i + 1);
    }
}

/// The fields of a record tile it: the first starts at 0, the last ends at
/// the record end, each range is ordered, and neighbouring ranges are split
/// by exactly one delimiter byte (quotes stay inside the ranges).
pub proof fn law_fields_tile_record(line: Seq<u8>, delim: u8, quote: u8)
    requires
        line.len() <= usize::MAX,
    ensures
        ({
            let rs = record_fields(line, delim, quote);
            &&& rs.len() >= 1
            &&& rs[0].0 == 0
            &&& rs[rs.len() - 1].1 == line.len()
            &&& forall|k: int| 0 <= k < rs.len() ==> (#[trigger] rs[k]).0 <= rs[k].1
            &&& forall|k: int|
                0 <= k < rs.len() - 1 ==> line[(#[trigger] rs[k]).1 as int] == delim && rs[k + 1].0
                    == rs[k].1 + 1
        }),
{
    lemma_ranges_tile(line, delim, quote, 0);
}

/// A record has at least one field and at most one more than it has
/// delimiter bytes; without any quote byte, exactly one more.
pub proof fn law_field_count_bounds(line: Seq<u8>, delim: u8, quote: u8)
    ensures
        1 <= record_fields(line, delim, quote).len() <= delim_count(line, delim, 0) + 1,
        (forall|j: int| 0 <= j < line.len() ==> line[j] != quote) ==> record_fields(
            line,
            delim,
            quote,
        ).len() == delim_count(line, delim, 0) + 1,
{
    lemma_ranges_from_len(line, delim, quote, 0);
    lemma_ranges_count(line, delim, quote, 0);
}

/// A quoted field is shown without its surrounding quotes: when the field's
/// bytes are a quote, then bytes `v` holding no quote, then a quote, its
/// display text is that of `v` alone. In particular the empty quoted field
/// `""` shows as the empty text.
pub proof fn law_quoted_field_shows_inside(line: Seq<u8>, start: int, end: int, quote: u8, v: Seq<u8>)
    requires
        0 <= start <= end <= line.len(),
        line.subrange(start, end) == seq![quote] + v + seq![quote],
        forall|j: int| 0 <= j < v.len() ==> v[j] != quote,
        quote != 13u8,
    ensures
        field_text(line, start, end, quote) == sanitized(v),
        v.len() == 0 ==> field_text(line, start, end, quote).len() == 0,
{
    let raw = line.subrange(start, end);
    assert(raw.len() == v.len() + 2);
    assert(raw.last() == quote);
    assert(trimmed_field(line, start, end) == raw);
    assert(raw[0] == quote);
    assert(raw.subrange(1, raw.len() - 1) =~= v);
    lemma_unescape_without_quotes(v, quote);
    if v.len() == 0 {
        let empty: Seq<u8> = seq![];
        assert(v =~= empty);
        assert(crate::encoding::without_nuls(empty) =~= empty);
        assert(vstd::utf8::valid_utf8(empty));
        assert(vstd::utf8::decode_utf8(empty).len() == 0);
    }
}

// ---------------------------------------------------------------------------
// Executable splitting
// ---------------------------------------------------------------------------

/// The end of the field starting at `start`.
fn scan_field_end(line: &[u8], delim: u8, quote: u8, start: usize) -> (res: usize)
    requires
        start <= line@.len(),
    ensures
        res == field_end(line@, delim, quote, start as int),
{
    let n = line.len();
    let mut i = start;
    if i < n && line[i] == quote {
        i += 1;
        while i < n
            invariant_except_break
                quoted_end(line@, quote, i as int) == quoted_end(line@, quote, start + 1),
            invariant
                start < i <= n,
                n == line@.len(),
            ensures
                i == quoted_end(line@, quote, start + 1),
            decreases n - i,
        {
            if line[i] == quote {
                if i + 1 < n && line[i + 1] == quote {
                    i += 2;
                    continue;
                }
                i += 1;
                break;
            }
            i += 1;
        }
    }
    let ghost body_start = i;
    while i < n && line[i] != delim
        invariant
            body_start <= i <= n,
            n == line@.len(),
            body_end(line@, delim, i as int) == body_end(line@, delim, body_start as int),
        decreases n - i,
    {
        i += 1;
    }
    i
}

/// Split `line` into field ranges, appending each to `out`.
///
/// Ranges are relative to `line` and include any surrounding quotes (use
/// [`field_value`] / [`unquote_borrowed`] to strip them).
pub fn split_fields(line: &[u8], delim: u8, quote: u8, out: &mut FieldRanges)
    requires
        field_range_items(*old(out)).len() + line@.len() + 2 < field_range_capacity(),
    ensures
        field_range_items(*final(out)) == field_range_items(*old(out)) + record_fields(
            line@,
            delim,
            quote,
        ),
{
    let n = line.len();
    let mut start: usize = 0;
    let ghost base = field_range_items(*old(out));
    proof {
        assert(record_fields(line@, delim, quote) == ranges_from(line@, delim, quote, 0));
        assert(field_range_items(*out) + ranges_from(line@, delim, quote, 0) =~= base
            + record_fields(line@, delim, quote));
    }
    loop
        invariant
            start <= n,
            n == line@.len(),
            base.len() + line@.len() + 2 < field_range_capacity(),
            base == field_range_items(*old(out)),
            field_range_items(*out).len() <= base.len() + start,
            field_range_items(*out) + ranges_from(line@, delim, quote, start as int) == base
                + record_fields(line@, delim, quote),
        decreases n - start,
    {
        let e = scan_field_end(line, delim, quote, start);
        proof {
            lemma_field_end_bounds(line@, delim, quote, start as int);
        }
        let ghost before = field_range_items(*out);
        if e < n {
            ranges_push(out, (start, e));
            proof {
                assert(before + ranges_from(line@, delim, quote, start as int) =~= before.push(
                    (start, e),
                ) + ranges_from(line@, delim, quote, e + 1));
            }
            start = e + 1;
        } else {
            assert(ranges_from(line@, delim, quote, start as int) == seq![(start, n)]);
            ranges_push(out, (start, n));
            proof {
                assert(before + ranges_from(line@, delim, quote, start as int) =~= before.push(
                    (start, n),
                ));
            }
            assert(field_range_items(*out) == base + record_fields(line@, delim, quote));
            return;
        }
    }
}

/// Collect every field range of `line`.
pub fn field_ranges(line: &[u8], delim: u8, quote: u8) -> (res: FieldRanges)
    requires
        line@.len() + 2 < field_range_capacity(),
    ensures
        field_range_items(res) == record_fields(line@, delim, quote),
{
    let mut out = ranges_new();
    split_fields(line, delim, quote, &mut out);
    assert(Seq::<(usize, usize)>::empty() + record_fields(line@, delim, quote) =~= record_fields(
        line@,
        delim,
        quote,
    ));
    out
}

/// Number of fields in `line`.
pub fn count_fields(line: &[u8], delim: u8, quote: u8) -> (res: usize)
    requires
        line@.len() < usize::MAX,
    ensures
        res == record_fields(line@, delim, quote).len(),
{
    let n = line.len();
    let mut start: usize = 0;
    let mut count: usize = 0;
    proof {
        lemma_ranges_from_len(line@, delim, quote, 0);
    }
    loop
        invariant
            start <= n,
            n == line@.len(),
            count <= start,
            n < usize::MAX,
            count + ranges_from(line@, delim, quote, start as int).len() == record_fields(
                line@,
                delim,
                quote,
            ).len(),
        decreases n - start,
    {
        let e = scan_field_end(line, delim, quote, start);
        proof {
            lemma_field_end_bounds(line@, delim, quote, start as int);
        }
        if e < n {
            count += 1;
            start = e + 1;
        } else {
            return count + 1;
        }
    }
}

/// Byte range of the `n`-th field (0-based), stopping as soon as it is
/// found. `None` when the record has no such field.
pub fn field_at(line: &[u8], delim: u8, quote: u8, n: usize) -> (res: Option<(usize, usize)>)
    ensures
        res == if n < record_fields(line@, delim, quote).len() {
            Some(record_fields(line@, delim, quote)[n as int])
        } else {
            None::<(usize, usize)>
        },
{
    let len = line.len();
    let mut start: usize = 0;
    let mut index: usize = 0;
    let ghost done: Seq<(usize, usize)> = seq![];
    proof {
        assert(done + ranges_from(line@, delim, quote, 0) =~= record_fields(line@, delim, quote));
    }
    loop
        invariant
            start <= len,
            len == line@.len(),
            index <= start,
            index <= n,
            done.len() == index,
            done + ranges_from(line@, delim, quote, start as int) == record_fields(
                line@,
                delim,
                quote,
            ),
        decreases len - start,
    {
        let e = scan_field_end(line, delim, quote, start);
        proof {
            lemma_field_end_bounds(line@, delim, quote, start as int);
        }
        let ghost rest = ranges_from(line@, delim, quote, start as int);
        if e < len {
            if index == n {
                assert(record_fields(line@, delim, quote)[n as int] == rest[0]);
                return Some((start, e));
            }
            proof {
                assert(done + rest =~= done.push((start, e)) + ranges_from(
                    line@,
                    delim,
                    quote,
                    e + 1,
                ));
                done = done.push((start, e));
            }
            index += 1;
            start = e + 1;
        } else {
            assert(rest =~= seq![(start, len)]);
            if index == n {
                assert(record_fields(line@, delim, quote)[n as int] == rest[0]);
                return Some((start, len));
            }
            return None;
        }
    }
}

/// One layer of surrounding quotes stripped from a field.
pub open spec fn unquoted(field: Seq<u8>, quote: u8) -> Seq<u8> {
    if field.len() >= 2 && field[0] == quote && field[field.len() - 1] == quote {
        field.subrange(1, field.len() - 1)
    } else {
        field
    }
}

/// Strip one layer of surrounding quotes from a field slice, without
/// allocating.
pub fn unquote_borrowed(field: &[u8], quote: u8) -> (res: &[u8])
    ensures
        res@ == unquoted(field@, quote),
{
    let n = field.len();
    if n >= 2 && field[0] == quote && field[n - 1] == quote {
        &field[1..n - 1]
    } else {
        field
    }
}

/// Doubled quotes collapsed to one, left to right.
pub open spec fn unescape_quotes(s: Seq<u8>, quote: u8) -> Seq<u8>
    decreases s.len(),
{
    if s.len() == 0 {
        seq![]
    } else if s.len() >= 2 && s[0] == quote && s[1] == quote {
        seq![quote] + unescape_quotes(s.subrange(2, s.len() as int), quote)
    } else {
        seq![s[0]] + unescape_quotes(s.drop_first(), quote)
    }
}

/// The raw bytes of a field with a trailing carriage return removed.
pub open spec fn trimmed_field(line: Seq<u8>, start: int, end: int) -> Seq<u8> {
    let raw = line.subrange(start, end);
    if raw.len() > 0 && raw.last() == 13u8 {
        raw.drop_last()
    } else {
        raw
    }
}

/// The content of a field: surrounding quotes removed and doubled quotes
/// unescaped when the field is quoted, the bytes as they are otherwise.
pub open spec fn field_content(raw: Seq<u8>, quote: u8) -> Seq<u8> {
    if raw.len() >= 2 && raw[0] == quote && raw[raw.len() - 1] == quote {
        unescape_quotes(raw.subrange(1, raw.len() - 1), quote)
    } else {
        raw
    }
}

/// The display text of field `(start, end)` of `line`.
pub open spec fn field_text(line: Seq<u8>, start: int, end: int, quote: u8) -> Seq<char> {
    sanitized(field_content(trimmed_field(line, start, end), quote))
}

proof fn lemma_unescape_without_quotes(s: Seq<u8>, quote: u8)
    requires
        forall|j: int| 0 <= j < s.len() ==> s[j] != quote,
    ensures
        unescape_quotes(s, quote) == s,
    decreases s.len(),
{
    if s.len() > 0 {
        lemma_unescape_without_quotes(s.drop_first(), quote);
        assert(seq![s[0]] + s.drop_first() =~= s);
    }
}

/// Collapse doubled quotes.
fn unescape(inner: &[u8], quote: u8) -> (res: Vec<u8>)
    ensures
        res@ == unescape_quotes(inner@, quote),
{
    let mut buf: Vec<u8> = Vec::new();
    let n = inner.len();
    let mut j: usize = 0;
    proof {
        assert(inner@.subrange(0, n as int) =~= inner@);
        assert(buf@ + unescape_quotes(inner@.subrange(0, n as int), quote) =~= unescape_quotes(
            inner@,
            quote,
        ));
    }
    while j < n
        invariant
            j <= n,
            n == inner@.len(),
            buf@ + unescape_quotes(inner@.subrange(j as int, n as int), quote) == unescape_quotes(
                inner@,
                quote,
            ),
        decreases n - j,
    {
        let ghost rest = inner@.subrange(j as int, n as int);
        if inner[j] == quote && j + 1 < n && inner[j + 1] == quote {
            proof {
                assert(rest.subrange(2, rest.len() as int) =~= inner@.subrange(j + 2, n as int));
                assert(buf@ + unescape_quotes(rest, quote) =~= buf@.push(quote) + unescape_quotes(
                    inner@.subrange(j + 2, n as int),
                    quote,
                ));
            }
            buf.push(quote);
            j += 2;
        } else {
            proof {
                assert(rest.drop_first() =~= inner@.subrange(j + 1, n as int));
                assert(buf@ + unescape_quotes(rest, quote) =~= buf@.push(inner@[j as int])
                    + unescape_quotes(inner@.subrange(j + 1, n as int), quote));
            }
            buf.push(inner[j]);
            j += 1;
        }
    }
    proof {
        assert(inner@.subrange(n as int, n as int) =~= Seq::<u8>::empty());
        assert(buf@ + Seq::<u8>::empty() =~= buf@);
    }
    buf
}

/// Materialize a field slice into a clean, display-ready `String`.
///
/// Removes a trailing `\r` (CRLF), strips surrounding quotes, unescapes doubled
/// quotes, and sanitizes the encoding.
pub fn field_value(line: &[u8], range: (usize, usize), quote: u8) -> (res: String)
    requires
        range.0 <= range.1 <= line@.len(),
    ensures
        res@ == field_text(line@, range.0 as int, range.1 as int, quote),
{
    let (start, end) = range;
    let mut raw = &line[start..end];
    let len = raw.len();
    if len > 0 && raw[len - 1] == 13 {
        raw = &raw[0..len - 1];
    }
    let n = raw.len();
    if n >= 2 && raw[0] == quote && raw[n - 1] == quote {
        let inner = &raw[1..n - 1];
        if find_byte(quote, inner).is_some() {
            let buf = unescape(inner, quote);
            return sanitize(buf.as_slice());
        }
        proof {
            lemma_unescape_without_quotes(inner@, quote);
        }
        return sanitize(inner);
    }
    sanitize(raw)
}

} // verus!
