//! Stable multi-column sort.
//!
//! Sorting reorders a permutation of view positions: cell strings are never
//! moved. Each key cell is read once into a totally ordered [`CellKey`], then
//! a stable merge sort orders the positions. Numbers sort before text, numbers
//! by their order-preserving encoding, text case-insensitively. Rows with
//! equal keys keep the view's existing order, which is what makes successive
//! sorts compose predictably.

use vstd::prelude::*;
use vstd::multiset::Multiset;
use vstd::view::View as _;
use crate::dataset::Dataset;
use crate::text::{lower_chars, lower_vec, str_chars, trim_chars, trimmed};
use crate::view::View;

verus! {

broadcast use {vstd::seq_lib::group_to_multiset_ensures, vstd::multiset::group_multiset_axioms};

/// One level of a multi-column sort.
#[derive(Debug, Clone, Copy)]
pub struct SortKey {
    pub col: usize,
    pub ascending: bool,
}

/// A precomputed, totally ordered key for one cell: numbers (by an
/// order-preserving 64-bit encoding) before text (ASCII-lower-cased).
#[derive(Debug)]
pub enum CellKey {
    Num(u64),
    Text(Vec<char>),
}

/// Lexicographic order of two character sequences by code point: negative,
/// zero or positive.
pub open spec fn text_order(a: Seq<char>, b: Seq<char>) -> int
    decreases a.len(),
{
    if a.len() == 0 {
        if b.len() == 0 {
            0
        } else {
            -1
        }
    } else if b.len() == 0 {
        1
    } else if (a[0] as u32) < (b[0] as u32) {
        -1
    } else if (a[0] as u32) > (b[0] as u32) {
        1
    } else {
        text_order(a.drop_first(), b.drop_first())
    }
}

/// The order of two cell keys: numbers before text.
pub open spec fn cell_order(a: CellKey, b: CellKey) -> int {
    match a {
        CellKey::Num(x) => match b {
            CellKey::Num(y) => if x < y {
                -1
            } else if x > y {
                1
            } else {
                0
            },
            CellKey::Text(_) => -1,
        },
        CellKey::Text(x) => match b {
            CellKey::Num(_) => 1,
            CellKey::Text(y) => text_order(x@, y@),
        },
    }
}

/// The order of two rows' key cells from level `l` on: the first level
/// that differs decides, reversed for a descending level.
pub open spec fn level_order(keys: Seq<SortKey>, ka: Seq<CellKey>, kb: Seq<CellKey>, l: int) -> int
    decreases keys.len() - l,
{
    if l < 0 || l >= keys.len() {
        0
    } else {
        let o = cell_order(ka[l], kb[l]);
        let d = if keys[l].ascending {
            o
        } else {
            -o
        };
        if d != 0 {
            d
        } else {
            level_order(keys, ka, kb, l + 1)
        }
    }
}

/// The key cells of every view position.
pub open spec fn key_rows(computed: Seq<Vec<CellKey>>) -> Seq<Seq<CellKey>> {
    Seq::new(computed.len(), |p: int| computed[p]@)
}

/// Every position has one key cell per sort level.
pub open spec fn keys_fit(keys: Seq<SortKey>, rows: Seq<Seq<CellKey>>) -> bool {
    forall|p: int| 0 <= p < rows.len() ==> #[trigger] rows[p].len() == keys.len()
}

/// The sort order of two view positions: by the key levels, then by
/// position (stability).
pub open spec fn position_order(keys: Seq<SortKey>, rows: Seq<Seq<CellKey>>, p: int, q: int) -> int {
    let o = level_order(keys, rows[p], rows[q], 0);
    if o != 0 {
        o
    } else if p < q {
        -1
    } else if p > q {
        1
    } else {
        0
    }
}

/// `order` lists positions in sort order.
pub open spec fn sorted_positions(order: Seq<usize>, keys: Seq<SortKey>, rows: Seq<Seq<CellKey>>) -> bool {
    forall|i: int, j: int|
        0 <= i < j < order.len() ==> position_order(keys, rows, order[i] as int, order[j] as int) <= 0
}

/// The positions `0..n` in natural order.
pub open spec fn positions(n: nat) -> Seq<usize> {
    Seq::new(n, |i: int| i as usize)
}

/// `order` is a rearrangement of `0..n` in sort order.
pub open spec fn is_sorted_order(order: Seq<usize>, n: nat, keys: Seq<SortKey>, rows: Seq<Seq<CellKey>>) -> bool {
    &&& order.to_multiset() == positions(n).to_multiset()
    &&& sorted_positions(order, keys, rows)
}

impl CellKey {
    /// The key of an already trimmed cell text. `number` is the text read as
    /// a number, in its order-preserving encoding, when it reads as one; an
    /// empty text is never a number.
    pub fn from_trimmed(text: &[char], number: Option<u64>) -> (res: CellKey)
        ensures
            if number is Some && text@.len() > 0 {
                res == CellKey::Num(number->0)
            } else {
                res matches CellKey::Text(v) && v@ == lower_chars(text@)
            },
    {
        match number {
            Some(n) => {
                if text.len() > 0 {
                    return CellKey::Num(n);
                }
            },
            None => {},
        }
        CellKey::Text(lower_vec(text))
    }
}

/// The trimmed text of the key cells of every row of `ids`: entry `[p][l]`
/// is cell `(ids[p], keys[l].col)` without surrounding white space.
pub fn sort_cells(dataset: &Dataset, ids: &Vec<u32>, keys: &[SortKey]) -> (res: Vec<Vec<Vec<char>>>)
    requires
        dataset.wf(),
    ensures
        res@.len() == ids@.len(),
        forall|p: int|
            0 <= p < ids@.len() ==> (#[trigger] res@[p])@.len() == keys@.len() && forall|l: int|
                0 <= l < keys@.len() ==> (#[trigger] res@[p]@[l])@ == trimmed(
                    dataset.cell_text(ids@[p] as int, keys@[l].col as int),
                ),
{
    let mut out: Vec<Vec<Vec<char>>> = Vec::new();
    let mut p: usize = 0;
    while p < ids.len()
        invariant
            dataset.wf(),
            p <= ids@.len(),
            out@.len() == p,
            forall|q: int|
                0 <= q < p ==> (#[trigger] out@[q])@.len() == keys@.len() && forall|l: int|
                    0 <= l < keys@.len() ==> (#[trigger] out@[q]@[l])@ == trimmed(
                        dataset.cell_text(ids@[q] as int, keys@[l].col as int),
                    ),
        decreases ids@.len() - p,
    {
        let mut cells: Vec<Vec<char>> = Vec::new();
        let mut l: usize = 0;
        while l < keys.len()
            invariant
                dataset.wf(),
                p < ids@.len(),
                l <= keys@.len(),
                cells@.len() == l,
                forall|m: int|
                    0 <= m < l ==> (#[trigger] cells@[m])@ == trimmed(
                        dataset.cell_text(ids@[p as int] as int, keys@[m].col as int),
                    ),
            decreases keys@.len() - l,
        {
            let text = dataset.cell(ids[p] as usize, keys[l].col);
            let chars = str_chars(text.as_str());
            cells.push(trim_chars(chars.as_slice()));
            l += 1;
        }
        out.push(cells);
        p += 1;
    }
    out
}

/// Lexicographic comparison of two character vectors.
fn compare_text(a: &Vec<char>, b: &Vec<char>) -> (res: i8)
    ensures
        res as int == text_order(a@, b@),
        -1 <= res <= 1,
{
    proof {
        assert(a@.skip(0) =~= a@);
        assert(b@.skip(0) =~= b@);
    }
    let mut i: usize = 0;
    while i < a.len() && i < b.len()
        invariant
            i <= a@.len(),
            i <= b@.len(),
            text_order(a@, b@) == text_order(a@.skip(i as int), b@.skip(i as int)),
        decreases a@.len() - i,
    {
        let x = a[i] as u32;
        let y = b[i] as u32;
        if x < y {
            return -1;
        }
        if x > y {
            return 1;
        }
        proof {
            assert(a@.skip(i as int).drop_first() =~= a@.skip(i + 1));
            assert(b@.skip(i as int).drop_first() =~= b@.skip(i + 1));
        }
        i += 1;
    }
    if a.len() == i {
        if b.len() == i {
            0
        } else {
            -1
        }
    } else {
        1
    }
}

/// Comparison of two cell keys.
pub(crate) fn compare_cells(a: &CellKey, b: &CellKey) -> (res: i8)
    ensures
        res as int == cell_order(*a, *b),
        -1 <= res <= 1,
{
    match a {
        CellKey::Num(x) => match b {
            CellKey::Num(y) => if *x < *y {
                -1
            } else if *x > *y {
                1
            } else {
                0
            },
            CellKey::Text(_) => -1,
        },
        CellKey::Text(x) => match b {
            CellKey::Num(_) => 1,
            CellKey::Text(y) => compare_text(x, y),
        },
    }
}

/// Comparison of two view positions by their key cells, then position.
fn compare_positions(keys: &[SortKey], computed: &Vec<Vec<CellKey>>, p: usize, q: usize) -> (res: i8)
    requires
        p < computed@.len(),
        q < computed@.len(),
        keys_fit(keys@, key_rows(computed@)),
    ensures
        res as int == position_order(keys@, key_rows(computed@), p as int, q as int),
{
    let ghost rows = key_rows(computed@);
    assert(rows[p as int].len() == keys@.len());
    assert(rows[q as int].len() == keys@.len());
    let mut l: usize = 0;
    while l < keys.len()
        invariant
            l <= keys@.len(),
            p < computed@.len(),
            q < computed@.len(),
            rows == key_rows(computed@),
            computed@[p as int]@.len() == keys@.len(),
            computed@[q as int]@.len() == keys@.len(),
            level_order(keys@, rows[p as int], rows[q as int], 0) == level_order(
                keys@,
                rows[p as int],
                rows[q as int],
                l as int,
            ),
        decreases keys@.len() - l,
    {
        let o = compare_cells(&computed[p][l], &computed[q][l]);
        let d: i8 = if keys[l].ascending {
            o
        } else {
            -o
        };
        if d != 0 {
            return d;
        }
        l += 1;
    }
    if p < q {
        -1
    } else if p > q {
        1
    } else {
        0
    }
}

/// Merge two position lists, each in sort order, into one.
fn merge(left: Vec<usize>, right: Vec<usize>, keys: &[SortKey], computed: &Vec<Vec<CellKey>>) -> (res: Vec<usize>)
    requires
        keys_fit(keys@, key_rows(computed@)),
        forall|i: int| 0 <= i < left@.len() ==> #[trigger] left@[i] < computed@.len(),
        forall|i: int| 0 <= i < right@.len() ==> #[trigger] right@[i] < computed@.len(),
        sorted_positions(left@, keys@, key_rows(computed@)),
        sorted_positions(right@, keys@, key_rows(computed@)),
    ensures
        res@.to_multiset() == left@.to_multiset().add(right@.to_multiset()),
        forall|i: int| 0 <= i < res@.len() ==> #[trigger] res@[i] < computed@.len(),
        sorted_positions(res@, keys@, key_rows(computed@)),
{
    let ghost rows = key_rows(computed@);
    let ghost ks = keys@;
    let mut out: Vec<usize> = Vec::new();
    let mut i: usize = 0;
    let mut j: usize = 0;
    let nl = left.len();
    let nr = right.len();
    proof {
        assert(left@.subrange(0, nl as int) =~= left@);
        assert(right@.subrange(0, nr as int) =~= right@);
        assert(out@.to_multiset() =~= Multiset::<usize>::empty());
    }
    while i < nl || j < nr
        invariant
            rows == key_rows(computed@),
            ks == keys@,
            keys_fit(ks, rows),
            nl == left@.len(),
            nr == right@.len(),
            i <= nl,
            j <= nr,
            forall|k: int| 0 <= k < left@.len() ==> #[trigger] left@[k] < computed@.len(),
            forall|k: int| 0 <= k < right@.len() ==> #[trigger] right@[k] < computed@.len(),
            sorted_positions(left@, ks, rows),
            sorted_positions(right@, ks, rows),
            forall|k: int| 0 <= k < out@.len() ==> #[trigger] out@[k] < computed@.len(),
            sorted_positions(out@, ks, rows),
            forall|k: int|
                0 <= k < out@.len() ==> (i < nl ==> position_order(ks, rows, #[trigger] out@[k] as int, left@[i as int] as int) <= 0)
                    && (j < nr ==> position_order(ks, rows, out@[k] as int, right@[j as int] as int) <= 0),
            out@.to_multiset().add(left@.subrange(i as int, nl as int).to_multiset()).add(
                right@.subrange(j as int, nr as int).to_multiset(),
            ) == left@.to_multiset().add(right@.to_multiset()),
        decreases (nl - i) + (nr - j),
    {
        let take_left = if j >= nr {
            true
        } else if i >= nl {
            false
        } else {
            compare_positions(keys, computed, left[i], right[j]) <= 0
        };
        let ghost before = out@;
        if take_left {
            let x = left[i];
            proof {
                if j < nr {
                    lemma_position_antisym(ks, rows, x as int, right@[j as int] as int);
                }
                lemma_subrange_multiset(left@, i as int);
            }
            out.push(x);
            i += 1;
            proof {
                lemma_push_keeps_order(before, left@, right@, x, i as int, j as int, ks, rows);
            }
        } else {
            let x = right[j];
            proof {
                if i < nl {
                    lemma_position_antisym(ks, rows, x as int, left@[i as int] as int);
                }
                lemma_subrange_multiset(right@, j as int);
            }
            out.push(x);
            j += 1;
            proof {
                lemma_push_keeps_order(before, right@, left@, x, j as int, i as int, ks, rows);
            }
        }
    }
    proof {
        assert(left@.subrange(nl as int, nl as int) =~= Seq::<usize>::empty());
        assert(right@.subrange(nr as int, nr as int) =~= Seq::<usize>::empty());
    }
    out
}

/// Sort position list `v` by the key cells, stably.
fn merge_sort(v: Vec<usize>, keys: &[SortKey], computed: &Vec<Vec<CellKey>>) -> (res: Vec<usize>)
    requires
        keys_fit(keys@, key_rows(computed@)),
        forall|i: int| 0 <= i < v@.len() ==> #[trigger] v@[i] < computed@.len(),
    ensures
        res@.to_multiset() == v@.to_multiset(),
        forall|i: int| 0 <= i < res@.len() ==> #[trigger] res@[i] < computed@.len(),
        sorted_positions(res@, keys@, key_rows(computed@)),
    decreases v@.len(),
{
    let n = v.len();
    if n <= 1 {
        return v;
    }
    let ghost whole = v@;
    let mut left = v;
    let right = left.split_off(n / 2);
    proof {
        assert(whole =~= left@ + right@);
        vstd::seq_lib::lemma_multiset_commutative(left@, right@);
        assert forall|i: int| 0 <= i < left@.len() implies #[trigger] left@[i] < computed@.len() by {
            assert(left@[i] == whole[i]);
        }
        assert forall|i: int| 0 <= i < right@.len() implies #[trigger] right@[i] < computed@.len() by {
            assert(right@[i] == whole[n / 2 + i]);
        }
    }
    let l = merge_sort(left, keys, computed);
    let r = merge_sort(right, keys, computed);
    merge(l, r, keys, computed)
}

/// The positions `0..n` in sort order.
pub fn sorted_order(keys: &[SortKey], computed: &Vec<Vec<CellKey>>) -> (res: Vec<usize>)
    requires
        keys_fit(keys@, key_rows(computed@)),
    ensures
        res@.len() == computed@.len(),
        is_sorted_order(res@, computed@.len(), keys@, key_rows(computed@)),
{
    let n = computed.len();
    let mut start: Vec<usize> = Vec::new();
    let mut i: usize = 0;
    while i < n
        invariant
            i <= n,
            n == computed@.len(),
            start@ == positions(i as nat),
        decreases n - i,
    {
        start.push(i);
        i += 1;
        proof {
            assert(start@ =~= positions(i as nat));
        }
    }
    let order = merge_sort(start, keys, computed);
    proof {
        assert(order@.len() == order@.to_multiset().len());
    }
    order
}

/// Sort the rows of `view` by `keys`, returning a new view. `computed[p][l]`
/// is the key of level `l` for view position `p`. Rows with equal keys keep
/// their order in `view`; an empty key list returns the view unchanged.
pub fn sort_view(view: &View, keys: &[SortKey], computed: &Vec<Vec<CellKey>>) -> (res: View)
    requires
        keys@.len() > 0 ==> computed@.len() == view.ids().len() && keys_fit(keys@, key_rows(computed@)),
    ensures
        keys@.len() == 0 ==> res.ids() == view.ids() && res.spec_len() == view.spec_len() && (res is All
            <==> view is All),
        keys@.len() > 0 ==> res is Filtered && exists|order: Seq<usize>|
            #![trigger is_sorted_order(order, computed@.len(), keys@, key_rows(computed@))]
            is_sorted_order(order, computed@.len(), keys@, key_rows(computed@)) && order.len()
                == view.ids().len() && res.ids() == Seq::new(
                order.len(),
                |i: int| view.ids()[order[i] as int],
            ),
{
    if keys.len() == 0 {
        return match view {
            View::All(n) => View::All(*n),
            View::Filtered(ids) => View::Filtered(ids.clone()),
        };
    }
    let ids = view.iter();
    let _count = ids.len();
    let order = sorted_order(keys, computed);
    let mut out: Vec<u32> = Vec::new();
    let mut i: usize = 0;
    while i < order.len()
        invariant
            i <= order@.len(),
            order@.len() == ids@.len(),
            ids@ == view.ids(),
            is_sorted_order(order@, computed@.len(), keys@, key_rows(computed@)),
            computed@.len() == ids@.len(),
            out@ == Seq::new(i as nat, |k: int| ids@[order@[k] as int]),
        decreases order@.len() - i,
    {
        proof {
            lemma_order_in_range(order@, ids@.len(), i as int);
        }
        out.push(ids[order[i]]);
        i += 1;
        proof {
            assert(out@ =~= Seq::new(i as nat, |k: int| ids@[order@[k] as int]));
        }
    }
    View::Filtered(out)
}

/// `k` is the key of a trimmed cell text `text` whose reading as a number is
/// `number` (as [`CellKey::from_trimmed`] makes it).
pub open spec fn key_for(k: CellKey, text: Seq<char>, number: Option<u64>) -> bool {
    if number is Some && text.len() > 0 {
        k == CellKey::Num(number->0)
    } else {
        k matches CellKey::Text(v) && v@ == lower_chars(text)
    }
}

/// `rows[p][l]` is the key of cell `(ids[p], keys[l].col)` of `dataset`,
/// trimmed, with `numbers[p][l]` as its numeric reading.
pub open spec fn cells_keyed(
    dataset: Dataset,
    ids: Seq<u32>,
    keys: Seq<SortKey>,
    numbers: Seq<Vec<Option<u64>>>,
    rows: Seq<Seq<CellKey>>,
) -> bool {
    &&& rows.len() == ids.len()
    &&& forall|p: int|
        0 <= p < ids.len() ==> (#[trigger] rows[p]).len() == keys.len() && forall|l: int|
            0 <= l < keys.len() ==> key_for(
                #[trigger] rows[p][l],
                trimmed(dataset.cell_text(ids[p] as int, keys[l].col as int)),
                numbers[p]@[l],
            )
}

/// `numbers` has one numeric reading per key cell of each of `n` positions.
pub open spec fn numbers_fit(numbers: Seq<Vec<Option<u64>>>, n: int, levels: int) -> bool {
    &&& numbers.len() == n
    &&& forall|p: int| 0 <= p < n ==> (#[trigger] numbers[p])@.len() == levels
}

/// The sort keys of the key cells of every row of `ids`: entry `[p][l]` is
/// the key of cell `(ids[p], keys[l].col)`, trimmed, with `numbers[p][l]` as
/// its reading as a number (`None` when it does not read as one).
pub fn cell_keys(
    dataset: &Dataset,
    ids: &Vec<u32>,
    keys: &[SortKey],
    numbers: &Vec<Vec<Option<u64>>>,
) -> (res: Vec<Vec<CellKey>>)
    requires
        dataset.wf(),
        numbers_fit(numbers@, ids@.len() as int, keys@.len() as int),
    ensures
        cells_keyed(*dataset, ids@, keys@, numbers@, key_rows(res@)),
        res@.len() == ids@.len(),
        keys_fit(keys@, key_rows(res@)),
{
    let cells = sort_cells(dataset, ids, keys);
    let mut out: Vec<Vec<CellKey>> = Vec::new();
    let mut p: usize = 0;
    while p < cells.len()
        invariant
            p <= cells@.len(),
            cells@.len() == ids@.len(),
            numbers_fit(numbers@, ids@.len() as int, keys@.len() as int),
            forall|q: int|
                0 <= q < ids@.len() ==> (#[trigger] cells@[q])@.len() == keys@.len() && forall|l: int|
                    0 <= l < keys@.len() ==> (#[trigger] cells@[q]@[l])@ == trimmed(
                        dataset.cell_text(ids@[q] as int, keys@[l].col as int),
                    ),
            out@.len() == p,
            forall|q: int|
                0 <= q < p ==> (#[trigger] out@[q])@.len() == keys@.len() && forall|l: int|
                    0 <= l < keys@.len() ==> key_for(
                        #[trigger] out@[q]@[l],
                        trimmed(dataset.cell_text(ids@[q] as int, keys@[l].col as int)),
                        numbers@[q]@[l],
                    ),
        decreases cells@.len() - p,
    {
        let row = &cells[p];
        let nums = &numbers[p];
        let mut ks: Vec<CellKey> = Vec::new();
        let mut l: usize = 0;
        while l < row.len()
            invariant
                l <= row@.len(),
                row == cells@[p as int],
                nums == numbers@[p as int],
                row@.len() == keys@.len(),
                nums@.len() == keys@.len(),
                forall|m: int|
                    0 <= m < keys@.len() ==> (#[trigger] row@[m])@ == trimmed(
                        dataset.cell_text(ids@[p as int] as int, keys@[m].col as int),
                    ),
                ks@.len() == l,
                forall|m: int|
                    0 <= m < l ==> key_for(
                        #[trigger] ks@[m],
                        trimmed(dataset.cell_text(ids@[p as int] as int, keys@[m].col as int)),
                        numbers@[p as int]@[m],
                    ),
            decreases row@.len() - l,
        {
            let k = CellKey::from_trimmed(row[l].as_slice(), nums[l]);
            ks.push(k);
            l += 1;
        }
        out.push(ks);
        p += 1;
    }
    proof {
        let rows = key_rows(out@);
        assert forall|q: int| 0 <= q < rows.len() implies #[trigger] rows[q].len() == keys@.len() by {
            assert(rows[q] == out@[q]@);
        }
        assert forall|q: int| 0 <= q < ids@.len() implies (#[trigger] rows[q]).len() == keys@.len()
            && forall|l: int|
            0 <= l < keys@.len() ==> key_for(
                #[trigger] rows[q][l],
                trimmed(dataset.cell_text(ids@[q] as int, keys@[l].col as int)),
                numbers@[q]@[l],
            ) by {
            assert(rows[q] == out@[q]@);
        }
    }
    out
}

/// Sort the rows of `view` by the values of their key cells: stable, numbers
/// (by `numbers`, each cell's reading as a number, `None` where it does not
/// read as one) before text, text case-insensitively, each level ascending or
/// descending as `keys` say. `numbers[p][l]` belongs to cell
/// `(view row p, keys[l].col)`. An empty key list returns the view unchanged.
pub fn sort_by_cells(
    dataset: &Dataset,
    view: &View,
    keys: &[SortKey],
    numbers: &Vec<Vec<Option<u64>>>,
) -> (res: View)
    requires
        dataset.wf(),
        keys@.len() > 0 ==> numbers_fit(numbers@, view.ids().len() as int, keys@.len() as int),
    ensures
        keys@.len() == 0 ==> res.ids() == view.ids() && res.spec_len() == view.spec_len() && (res is All
            <==> view is All),
        keys@.len() > 0 ==> res is Filtered && exists|rows: Seq<Seq<CellKey>>, order: Seq<usize>|
            #![trigger is_sorted_order(order, view.ids().len(), keys@, rows)]
            cells_keyed(*dataset, view.ids(), keys@, numbers@, rows) && is_sorted_order(
                order,
                view.ids().len(),
                keys@,
                rows,
            ) && order.len() == view.ids().len() && res.ids() == Seq::new(
                order.len(),
                |i: int| view.ids()[order[i] as int],
            ),
{
    if keys.len() == 0 {
        let empty: Vec<Vec<CellKey>> = Vec::new();
        return sort_view(view, keys, &empty);
    }
    let ids = view.iter();
    let computed = cell_keys(dataset, &ids, keys, numbers);
    let res = sort_view(view, keys, &computed);
    proof {
        let rows = key_rows(computed@);
        let order = choose|order: Seq<usize>|
            #![trigger is_sorted_order(order, computed@.len(), keys@, key_rows(computed@))]
            is_sorted_order(order, computed@.len(), keys@, key_rows(computed@)) && order.len()
                == view.ids().len() && res.ids() == Seq::new(
                order.len(),
                |i: int| view.ids()[order[i] as int],
            );
        assert(is_sorted_order(order, view.ids().len(), keys@, rows));
    }
    res
}

/// Text keys are ordered lexicographically by code point: the order is
/// antisymmetric and zero only between equal texts, a proper prefix comes
/// before the longer text, and otherwise the first differing character
/// decides.
pub proof fn law_text_order_is_lexicographic(a: Seq<char>, b: Seq<char>)
    ensures
        text_order(a, b) == -text_order(b, a),
        text_order(a, b) == 0 <==> a == b,
        -1 <= text_order(a, b) <= 1,
        a.len() < b.len() && a == b.subrange(0, a.len() as int) ==> text_order(a, b) < 0,
        forall|i: int|
            0 <= i < a.len() && i < b.len() && a.subrange(0, i) == b.subrange(0, i) && (#[trigger] a[i]
                as u32) < (b[i] as u32) ==> text_order(a, b) < 0,
    decreases a.len(),
{
    if a.len() > 0 && b.len() > 0 && (a[0] as u32) == (b[0] as u32) {
        let a1 = a.drop_first();
        let b1 = b.drop_first();
        law_text_order_is_lexicographic(a1, b1);
        vstd::utf8::char_u32_cast(a[0], a[0] as u32);
        vstd::utf8::char_u32_cast(b[0], b[0] as u32);
        assert(a[0] == b[0]);
        if a1 == b1 {
            assert forall|i: int| 0 <= i < a.len() implies a[i] == b[i] by {
                if i > 0 {
                    assert(a[i] == a1[i - 1] && b[i] == b1[i - 1]);
                }
            }
            assert(a =~= b);
        }
        if a == b {
            assert(a1 =~= b1);
        }
        if a.len() < b.len() && a == b.subrange(0, a.len() as int) {
            assert(a1 =~= b1.subrange(0, a1.len() as int));
        }
        assert forall|i: int|
            0 <= i < a.len() && i < b.len() && a.subrange(0, i) == b.subrange(0, i) && (#[trigger] a[i]
                as u32) < (b[i] as u32) implies text_order(a, b) < 0 by {
            if i == 0 {
            } else {
                assert(a1.subrange(0, i - 1) =~= a.subrange(0, i).drop_first());
                assert(b1.subrange(0, i - 1) =~= b.subrange(0, i).drop_first());
                assert(a1[i - 1] == a[i]);
                assert(b1[i - 1] == b[i]);
            }
        }
    } else if a.len() > 0 && b.len() > 0 {
        assert forall|i: int|
            0 <= i < a.len() && i < b.len() && a.subrange(0, i) == b.subrange(0, i) && (#[trigger] a[i]
                as u32) < (b[i] as u32) implies text_order(a, b) < 0 by {
            if i > 0 {
                assert(a.subrange(0, i)[0] == b.subrange(0, i)[0]);
            }
        }
        if a == b {
        }
    } else if a.len() == 0 && b.len() > 0 {
    } else if a.len() > 0 && b.len() == 0 {
        assert(a != b);
    } else {
        assert(a =~= b);
    }
}

/// The sort order is unique: two rearrangements of `0..n` that both list
/// the positions in sort order are the same sequence. So a sorted view is
/// fully determined by the view, the keys and the key cells.
pub proof fn law_sorted_order_is_unique(
    o1: Seq<usize>,
    o2: Seq<usize>,
    n: nat,
    keys: Seq<SortKey>,
    rows: Seq<Seq<CellKey>>,
)
    requires
        keys_fit(keys, rows),
        n <= rows.len(),
        n <= usize::MAX,
        is_sorted_order(o1, n, keys, rows),
        is_sorted_order(o2, n, keys, rows),
    ensures
        o1 == o2,
{
    assert forall|i: int| 0 <= i < o1.len() implies #[trigger] o1[i] < rows.len() by {
        lemma_order_in_range(o1, n, i);
    }
    lemma_sorted_runs_equal(o1, o2, keys, rows);
}

proof fn lemma_sorted_runs_equal(s: Seq<usize>, t: Seq<usize>, keys: Seq<SortKey>, rows: Seq<Seq<CellKey>>)
    requires
        keys_fit(keys, rows),
        s.to_multiset() == t.to_multiset(),
        forall|i: int| 0 <= i < s.len() ==> #[trigger] s[i] < rows.len(),
        sorted_positions(s, keys, rows),
        sorted_positions(t, keys, rows),
    ensures
        s == t,
    decreases s.len(),
{
    assert(s.len() == s.to_multiset().len());
    assert(t.len() == t.to_multiset().len());
    if s.len() > 0 {
        let a = s[0];
        let b = t[0];
        assert(t.contains(b));
        assert(t.to_multiset().count(b) > 0);
        assert(s.contains(b));
        let i = choose|i: int| 0 <= i < s.len() && s[i] == b;
        assert(s.contains(a));
        assert(s.to_multiset().count(a) > 0);
        assert(t.contains(a));
        let j = choose|j: int| 0 <= j < t.len() && t[j] == a;
        assert(t[j] < rows.len());
        lemma_position_antisym(keys, rows, a as int, a as int);
        assert(position_order(keys, rows, a as int, b as int) <= 0) by {
            if i > 0 {
                assert(position_order(keys, rows, s[0] as int, s[i] as int) <= 0);
            }
        }
        assert(position_order(keys, rows, b as int, a as int) <= 0) by {
            if j > 0 {
                assert(position_order(keys, rows, t[0] as int, t[j] as int) <= 0);
            }
        }
        lemma_position_antisym(keys, rows, a as int, b as int);
        assert(a == b);
        assert(s.remove(0) =~= s.drop_first());
        assert(t.remove(0) =~= t.drop_first());
        assert(s.drop_first().to_multiset() == t.drop_first().to_multiset());
        assert forall|k: int| 0 <= k < s.drop_first().len() implies #[trigger] s.drop_first()[k] < rows.len() by {
            assert(s.drop_first()[k] == s[k + 1]);
        }
        assert(sorted_positions(s.drop_first(), keys, rows)) by {
            assert forall|x: int, y: int| 0 <= x < y < s.drop_first().len() implies position_order(
                keys,
                rows,
                s.drop_first()[x] as int,
                s.drop_first()[y] as int,
            ) <= 0 by {
                assert(s.drop_first()[x] == s[x + 1] && s.drop_first()[y] == s[y + 1]);
            }
        }
        assert(sorted_positions(t.drop_first(), keys, rows)) by {
            assert forall|x: int, y: int| 0 <= x < y < t.drop_first().len() implies position_order(
                keys,
                rows,
                t.drop_first()[x] as int,
                t.drop_first()[y] as int,
            ) <= 0 by {
                assert(t.drop_first()[x] == t[x + 1] && t.drop_first()[y] == t[y + 1]);
            }
        }
        lemma_sorted_runs_equal(s.drop_first(), t.drop_first(), keys, rows);
        assert(s =~= t) by {
            assert forall|k: int| 0 <= k < s.len() implies s[k] == t[k] by {
                if k > 0 {
                    assert(s[k] == s.drop_first()[k - 1]);
                    assert(t[k] == t.drop_first()[k - 1]);
                }
            }
        }
    }
}

/// Every entry of a rearrangement of `0..n` is below `n`.
pub(crate) proof fn lemma_order_in_range(order: Seq<usize>, n: nat, i: int)
    requires
        n <= usize::MAX,
        order.to_multiset() == positions(n).to_multiset(),
        0 <= i < order.len(),
    ensures
        order[i] < n,
{
    assert(order.contains(order[i]));
    assert(order.to_multiset().count(order[i]) > 0);
    assert(positions(n).contains(order[i]));
}

proof fn lemma_subrange_multiset(s: Seq<usize>, i: int)
    requires
        0 <= i < s.len(),
    ensures
        s.subrange(i, s.len() as int).to_multiset() == s.subrange(i + 1, s.len() as int).to_multiset().insert(s[i]),
{
    assert(s.subrange(i, s.len() as int) =~= s.subrange(i + 1, s.len() as int).insert(0, s[i]));
}

/// Pushing the head `x == from[a - 1]` of one run keeps the merge
/// invariants (`from` is the run taken from, `other` the other run).
proof fn lemma_push_keeps_order(
    before: Seq<usize>,
    from: Seq<usize>,
    other: Seq<usize>,
    x: usize,
    a: int,
    b: int,
    keys: Seq<SortKey>,
    rows: Seq<Seq<CellKey>>,
)
    requires
        1 <= a <= from.len(),
        0 <= b <= other.len(),
        from[a - 1] == x,
        keys_fit(keys, rows),
        x < rows.len(),
        forall|k: int| 0 <= k < from.len() ==> #[trigger] from[k] < rows.len(),
        forall|k: int| 0 <= k < before.len() ==> #[trigger] before[k] < rows.len(),
        sorted_positions(from, keys, rows),
        sorted_positions(before, keys, rows),
        forall|k: int| 0 <= k < before.len() ==> position_order(keys, rows, #[trigger] before[k] as int, x as int) <= 0,
        b < other.len() ==> position_order(keys, rows, x as int, other[b] as int) <= 0,
        forall|k: int|
            0 <= k < before.len() ==> (b < other.len() ==> position_order(
                keys,
                rows,
                #[trigger] before[k] as int,
                other[b] as int,
            ) <= 0),
    ensures
        forall|k: int|
            0 <= k < before.push(x).len() ==> (b < other.len() ==> position_order(
                keys,
                rows,
                #[trigger] before.push(x)[k] as int,
                other[b] as int,
            ) <= 0),
        sorted_positions(before.push(x), keys, rows),
        forall|k: int|
            0 <= k < before.push(x).len() ==> (a < from.len() ==> position_order(
                keys,
                rows,
                #[trigger] before.push(x)[k] as int,
                from[a] as int,
            ) <= 0),
{
    let out = before.push(x);
    assert forall|k: int| 0 <= k < out.len() && b < other.len() implies position_order(
        keys,
        rows,
        #[trigger] out[k] as int,
        other[b] as int,
    ) <= 0 by {
        if k < before.len() {
            assert(out[k] == before[k]);
        }
    }
    assert forall|i: int, j: int| 0 <= i < j < out.len() implies position_order(keys, rows, out[i] as int, out[j] as int) <= 0 by {
        if j == out.len() - 1 {
            assert(out[i] == before[i]);
        } else {
            assert(out[i] == before[i] && out[j] == before[j]);
        }
    }
    if a < from.len() {
        assert(position_order(keys, rows, x as int, from[a] as int) <= 0);
        assert forall|k: int| 0 <= k < out.len() implies position_order(keys, rows, #[trigger] out[k] as int, from[a] as int) <= 0 by {
            if k < before.len() {
                assert(out[k] == before[k]);
                lemma_position_trans(keys, rows, before[k] as int, x as int, from[a] as int);
            }
        }
    }
}

proof fn lemma_text_antisym(a: Seq<char>, b: Seq<char>)
    ensures
        text_order(a, b) == -text_order(b, a),
    decreases a.len(),
{
    if a.len() > 0 && b.len() > 0 && (a[0] as u32) == (b[0] as u32) {
        lemma_text_antisym(a.drop_first(), b.drop_first());
    }
}

proof fn lemma_text_trans(a: Seq<char>, b: Seq<char>, c: Seq<char>)
    requires
        text_order(a, b) <= 0,
        text_order(b, c) <= 0,
    ensures
        text_order(a, c) <= 0,
    decreases a.len(),
{
    if a.len() > 0 && b.len() > 0 && c.len() > 0 && (a[0] as u32) == (b[0] as u32) && (b[0] as u32)
        == (c[0] as u32) {
        lemma_text_trans(a.drop_first(), b.drop_first(), c.drop_first());
    }
}

proof fn lemma_cell_antisym(a: CellKey, b: CellKey)
    ensures
        cell_order(a, b) == -cell_order(b, a),
{
    if let CellKey::Text(x) = a {
        if let CellKey::Text(y) = b {
            lemma_text_antisym(x@, y@);
        }
    }
}

proof fn lemma_cell_trans(a: CellKey, b: CellKey, c: CellKey)
    requires
        cell_order(a, b) <= 0,
        cell_order(b, c) <= 0,
    ensures
        cell_order(a, c) <= 0,
{
    if let CellKey::Text(x) = a {
        if let CellKey::Text(y) = b {
            if let CellKey::Text(z) = c {
                lemma_text_trans(x@, y@, z@);
            }
        }
    }
}

/// The facts of an antisymmetric, transitive comparison that the
/// lexicographic combination needs, for one level.
proof fn lemma_level_facts(keys: Seq<SortKey>, ka: Seq<CellKey>, kb: Seq<CellKey>, kc: Seq<CellKey>, l: int)
    requires
        0 <= l < keys.len(),
        l < ka.len(),
        l < kb.len(),
        l < kc.len(),
    ensures
        cell_order(ka[l], kb[l]) == -cell_order(kb[l], ka[l]),
        cell_order(kb[l], kc[l]) == -cell_order(kc[l], kb[l]),
        cell_order(ka[l], kc[l]) == -cell_order(kc[l], ka[l]),
        cell_order(ka[l], kb[l]) <= 0 && cell_order(kb[l], kc[l]) <= 0 ==> cell_order(ka[l], kc[l]) <= 0,
        cell_order(kc[l], ka[l]) <= 0 && cell_order(ka[l], kb[l]) <= 0 ==> cell_order(kc[l], kb[l]) <= 0,
        cell_order(kb[l], kc[l]) <= 0 && cell_order(kc[l], ka[l]) <= 0 ==> cell_order(kb[l], ka[l]) <= 0,
        cell_order(kc[l], kb[l]) <= 0 && cell_order(kb[l], ka[l]) <= 0 ==> cell_order(kc[l], ka[l]) <= 0,
        cell_order(kb[l], ka[l]) <= 0 && cell_order(ka[l], kc[l]) <= 0 ==> cell_order(kb[l], kc[l]) <= 0,
        cell_order(ka[l], kc[l]) <= 0 && cell_order(kc[l], kb[l]) <= 0 ==> cell_order(ka[l], kb[l]) <= 0,
{
    let (a, b, c) = (ka[l], kb[l], kc[l]);
    lemma_cell_antisym(a, b);
    lemma_cell_antisym(b, c);
    lemma_cell_antisym(a, c);
    if cell_order(a, b) <= 0 && cell_order(b, c) <= 0 {
        lemma_cell_trans(a, b, c);
    }
    if cell_order(c, a) <= 0 && cell_order(a, b) <= 0 {
        lemma_cell_trans(c, a, b);
    }
    if cell_order(b, c) <= 0 && cell_order(c, a) <= 0 {
        lemma_cell_trans(b, c, a);
    }
    if cell_order(c, b) <= 0 && cell_order(b, a) <= 0 {
        lemma_cell_trans(c, b, a);
    }
    if cell_order(b, a) <= 0 && cell_order(a, c) <= 0 {
        lemma_cell_trans(b, a, c);
    }
    if cell_order(a, c) <= 0 && cell_order(c, b) <= 0 {
        lemma_cell_trans(a, c, b);
    }
}

proof fn lemma_level_antisym(keys: Seq<SortKey>, ka: Seq<CellKey>, kb: Seq<CellKey>, l: int)
    requires
        0 <= l,
        ka.len() == keys.len(),
        kb.len() == keys.len(),
    ensures
        level_order(keys, ka, kb, l) == -level_order(keys, kb, ka, l),
    decreases keys.len() - l,
{
    if l < keys.len() {
        lemma_cell_antisym(ka[l], kb[l]);
        lemma_level_antisym(keys, ka, kb, l + 1);
    }
}

proof fn lemma_level_trans(keys: Seq<SortKey>, ka: Seq<CellKey>, kb: Seq<CellKey>, kc: Seq<CellKey>, l: int)
    requires
        0 <= l,
        ka.len() == keys.len(),
        kb.len() == keys.len(),
        kc.len() == keys.len(),
        level_order(keys, ka, kb, l) <= 0,
        level_order(keys, kb, kc, l) <= 0,
    ensures
        level_order(keys, ka, kc, l) <= 0,
        level_order(keys, ka, kb, l) < 0 || level_order(keys, kb, kc, l) < 0 ==> level_order(
            keys,
            ka,
            kc,
            l,
        ) < 0,
    decreases keys.len() - l,
{
    if l < keys.len() {
        lemma_level_facts(keys, ka, kb, kc, l);
        lemma_level_antisym(keys, ka, kb, l + 1);
        lemma_level_antisym(keys, kb, kc, l + 1);
        lemma_level_antisym(keys, ka, kc, l + 1);
        let ab = cell_order(ka[l], kb[l]);
        let bc = cell_order(kb[l], kc[l]);
        if ab == 0 && bc == 0 {
            lemma_level_trans(keys, ka, kb, kc, l + 1);
        }
    }
}

proof fn lemma_position_antisym(keys: Seq<SortKey>, rows: Seq<Seq<CellKey>>, p: int, q: int)
    requires
        keys_fit(keys, rows),
        0 <= p < rows.len(),
        0 <= q < rows.len(),
    ensures
        position_order(keys, rows, p, q) == -position_order(keys, rows, q, p),
{
    assert(rows[p].len() == keys.len());
    assert(rows[q].len() == keys.len());
    lemma_level_antisym(keys, rows[p], rows[q], 0);
}

proof fn lemma_position_trans(keys: Seq<SortKey>, rows: Seq<Seq<CellKey>>, p: int, q: int, r: int)
    requires
        keys_fit(keys, rows),
        0 <= p < rows.len(),
        0 <= q < rows.len(),
        0 <= r < rows.len(),
        position_order(keys, rows, p, q) <= 0,
        position_order(keys, rows, q, r) <= 0,
    ensures
        position_order(keys, rows, p, r) <= 0,
{
    assert(rows[p].len() == keys.len());
    assert(rows[q].len() == keys.len());
    assert(rows[r].len() == keys.len());
    let pq = level_order(keys, rows[p], rows[q], 0);
    let qr = level_order(keys, rows[q], rows[r], 0);
    lemma_level_antisym(keys, rows[p], rows[q], 0);
    lemma_level_antisym(keys, rows[q], rows[r], 0);
    lemma_level_antisym(keys, rows[p], rows[r], 0);
    lemma_level_trans(keys, rows[p], rows[q], rows[r], 0);
    if pq == 0 && qr == 0 {
        lemma_level_trans(keys, rows[r], rows[q], rows[p], 0);
    }
}

} // verus!
