//! Multi-level grouping.
//!
//! Rows are grouped by N columns into a tree: each level partitions by a
//! column value, and the deepest level holds the rows themselves. The tree
//! only materializes group nodes (one per distinct value combination) plus
//! one row id per row; it never allocates a node per row.
//!
//! A group node's children are sub-groups (more levels) or the rows in that
//! group, a contiguous range of the tree's row order.

use vstd::prelude::*;
use vstd::view::View as _;
use crate::dataset::Dataset;
use crate::sort::{
    cell_keys, cell_order, cells_keyed, is_sorted_order, key_rows, keys_fit, numbers_fit,
    sorted_order, CellKey, SortKey,
};
use crate::view::View;

verus! {

/// A tree position: a group node (by node id) or a single data row.
/// Encoded as `i64` for foreign callers: `>= 0` is a group node id; `< 0` is
/// the data row `-item - 1`.
#[derive(Debug, Clone, Copy, PartialEq, Eq, Structural)]
pub enum Item {
    Group(usize),
    Row(u32),
}

/// The `i64` form of an item.
pub open spec fn encoded(item: Item) -> i64 {
    match item {
        Item::Group(n) => n as i64,
        Item::Row(r) => (-(r as int) - 1) as i64,
    }
}

/// The item an `i64` stands for.
pub open spec fn decoded(item: i64) -> Item {
    if item >= 0 {
        Item::Group(item as usize)
    } else {
        Item::Row((-(item + 1)) as u32)
    }
}

impl Item {
    /// The `i64` form of this item.
    pub fn encode(self) -> (res: i64)
        ensures
            res == encoded(self),
    {
        match self {
            Item::Group(n) => n as i64,
            Item::Row(r) => -(r as i64) - 1,
        }
    }

    /// The item an `i64` stands for.
    pub fn decode(item: i64) -> (res: Item)
        ensures
            res == decoded(item),
    {
        if item >= 0 {
            Item::Group(item as usize)
        } else {
            Item::Row((-(item + 1)) as u32)
        }
    }
}

/// Decoding an encoded item gives the item back, for every row item and
/// every group id that fits in an `i64`.
pub proof fn law_item_round_trip(item: Item)
    requires
        item matches Item::Group(n) ==> n <= i64::MAX,
    ensures
        decoded(encoded(item)) == item,
{
}

enum Children {
    /// Sub-group node ids.
    Groups(Vec<usize>),
    /// A contiguous range of the tree's row order (deepest level).
    Rows { start: usize, len: usize },
}

/// One group: its label (the column value), its row count and its children.
pub struct GroupNode {
    label: String,
    count: u64,
    children: Children,
}

impl GroupNode {
    /// The group label.
    pub closed spec fn label_view(&self) -> Seq<char> {
        self.label@
    }

    /// The number of rows under the group.
    pub closed spec fn count_view(&self) -> u64 {
        self.count
    }

    /// The sub-group ids, when the children are groups.
    pub closed spec fn sub_groups(&self) -> Option<Seq<usize>> {
        match self.children {
            Children::Groups(g) => Some(g@),
            Children::Rows { .. } => None,
        }
    }

    /// `(start, len)` in the tree's row order, when the children are rows.
    pub closed spec fn row_range(&self) -> Option<(int, int)> {
        match self.children {
            Children::Groups(_) => None,
            Children::Rows { start, len } => Some((start as int, len as int)),
        }
    }
}

/// Rows `i` and `j` have the same key at level `depth`.
pub open spec fn same_key(rows: Seq<Seq<CellKey>>, depth: int, i: int, j: int) -> bool {
    cell_order(rows[i][depth], rows[j][depth]) == 0
}

/// The end of the run of rows with row `i`'s key at `depth`, scanning from
/// `j`.
pub open spec fn run_scan(rows: Seq<Seq<CellKey>>, depth: int, i: int, j: int, end: int) -> int
    decreases end - j,
{
    if j >= end {
        end
    } else if same_key(rows, depth, j, i) {
        run_scan(rows, depth, i, j + 1, end)
    } else {
        j
    }
}

/// The end of the run starting at row `i`.
pub open spec fn run_end(rows: Seq<Seq<CellKey>>, depth: int, i: int, end: int) -> int {
    run_scan(rows, depth, i, i + 1, end)
}

/// A run scan ends between where it starts and `end`.
pub proof fn lemma_run_scan_bounds(rows: Seq<Seq<CellKey>>, depth: int, i: int, j: int, end: int)
    requires
        j <= end,
    ensures
        j <= run_scan(rows, depth, i, j, end) <= end,
    decreases end - j,
{
    if j < end && same_key(rows, depth, j, i) {
        lemma_run_scan_bounds(rows, depth, i, j + 1, end);
    }
}

/// The maximal runs of equal keys at `depth` in rows `[i, end)`, as
/// `(start, end)` pairs.
pub open spec fn runs(rows: Seq<Seq<CellKey>>, depth: int, i: int, end: int) -> Seq<(int, int)>
    decreases end - i,
{
    if i >= end {
        seq![]
    } else {
        let e = run_end(rows, depth, i, end);
        proof {
            lemma_run_scan_bounds(rows, depth, i, i + 1, end);
        }
        seq![(i, e)] + runs(rows, depth, e, end)
    }
}

/// The groups `gids` are the groups of rows `[start, end)` at `depth`: one
/// per run, labelled with the run's first cell, counting its rows, with the
/// next level (or the rows themselves) as children.
pub open spec fn level_ok(
    ds: Dataset,
    cols: Seq<usize>,
    ids: Seq<u32>,
    rows: Seq<Seq<CellKey>>,
    nodes: Seq<GroupNode>,
    gids: Seq<usize>,
    depth: int,
    start: int,
    end: int,
) -> bool
    decreases cols.len() - depth, 1int,
{
    let rs = runs(rows, depth, start, end);
    &&& gids.len() == rs.len()
    &&& forall|k: int|
        0 <= k < rs.len() ==> group_ok(ds, cols, ids, rows, nodes, #[trigger] gids[k], depth, rs[k].0, rs[k].1)
}

/// Group `g` is the group of the run `[s, e)` at `depth`.
pub open spec fn group_ok(
    ds: Dataset,
    cols: Seq<usize>,
    ids: Seq<u32>,
    rows: Seq<Seq<CellKey>>,
    nodes: Seq<GroupNode>,
    g: usize,
    depth: int,
    s: int,
    e: int,
) -> bool
    decreases cols.len() - depth, 0int,
{
    &&& g < nodes.len()
    &&& nodes[g as int].label_view() == ds.cell_text(ids[s] as int, cols[depth] as int)
    &&& nodes[g as int].count_view() == e - s
    &&& if 0 <= depth && depth + 1 < cols.len() {
        nodes[g as int].sub_groups() matches Some(sub) && level_ok(
            ds,
            cols,
            ids,
            rows,
            nodes,
            sub,
            depth + 1,
            s,
            e,
        )
    } else {
        nodes[g as int].row_range() == Some((s, e - s))
    }
}

/// The sum of the row counts of the groups `gids`.
pub open spec fn counts_total(nodes: Seq<GroupNode>, gids: Seq<usize>) -> int
    decreases gids.len(),
{
    if gids.len() == 0 {
        0
    } else {
        nodes[gids[0] as int].count_view() + counts_total(nodes, gids.drop_first())
    }
}

/// The total length of the ranges `rs`.
pub open spec fn ranges_total(rs: Seq<(int, int)>) -> int
    decreases rs.len(),
{
    if rs.len() == 0 {
        0
    } else {
        (rs[0].1 - rs[0].0) + ranges_total(rs.drop_first())
    }
}

/// The groups of a level count every row of their range exactly once:
/// their counts add up to the number of rows grouped.
pub proof fn law_group_counts_cover_rows(
    ds: Dataset,
    cols: Seq<usize>,
    ids: Seq<u32>,
    rows: Seq<Seq<CellKey>>,
    nodes: Seq<GroupNode>,
    gids: Seq<usize>,
    depth: int,
    start: int,
    end: int,
)
    requires
        start <= end,
        level_ok(ds, cols, ids, rows, nodes, gids, depth, start, end),
    ensures
        counts_total(nodes, gids) == end - start,
{
    let rs = runs(rows, depth, start, end);
    lemma_runs_total(rows, depth, start, end);
    assert forall|k: int| 0 <= k < rs.len() implies nodes[#[trigger] gids[k] as int].count_view() == rs[k].1 - rs[k].0 by {
        assert(group_ok(ds, cols, ids, rows, nodes, gids[k], depth, rs[k].0, rs[k].1));
    }
    lemma_counts_match_ranges(nodes, gids, rs);
}

proof fn lemma_runs_total(rows: Seq<Seq<CellKey>>, depth: int, i: int, end: int)
    requires
        i <= end,
    ensures
        ranges_total(runs(rows, depth, i, end)) == end - i,
    decreases end - i,
{
    if i < end {
        let e = run_end(rows, depth, i, end);
        lemma_run_scan_bounds(rows, depth, i, i + 1, end);
        lemma_runs_total(rows, depth, e, end);
        assert((seq![(i, e)] + runs(rows, depth, e, end)).drop_first() =~= runs(rows, depth, e, end));
    }
}

proof fn lemma_counts_match_ranges(nodes: Seq<GroupNode>, gids: Seq<usize>, rs: Seq<(int, int)>)
    requires
        gids.len() == rs.len(),
        forall|k: int| 0 <= k < rs.len() ==> nodes[#[trigger] gids[k] as int].count_view() == rs[k].1 - rs[k].0,
    ensures
        counts_total(nodes, gids) == ranges_total(rs),
    decreases gids.len(),
{
    if gids.len() > 0 {
        assert(nodes[gids[0] as int].count_view() == rs[0].1 - rs[0].0);
        assert forall|k: int| 0 <= k < rs.drop_first().len() implies nodes[#[trigger] gids.drop_first()[k] as int].count_view()
            == rs.drop_first()[k].1 - rs.drop_first()[k].0 by {
            assert(gids.drop_first()[k] == gids[k + 1]);
        }
        lemma_counts_match_ranges(nodes, gids.drop_first(), rs.drop_first());
    }
}

/// The sort levels grouping uses: every column ascending.
pub open spec fn ascending_keys(cols: Seq<usize>) -> Seq<SortKey> {
    Seq::new(cols.len(), |i: int| SortKey { col: cols[i], ascending: true })
}

/// A built grouping tree.
pub struct GroupTree {
    nodes: Vec<GroupNode>,
    /// All grouped rows, ordered so each leaf group owns a contiguous range.
    row_ids: Vec<u32>,
    /// Top-level group node ids.
    roots: Vec<usize>,
}

impl GroupTree {
    #[verifier::type_invariant]
    spec fn inv(&self) -> bool {
        forall|n: int|
            0 <= n < self.nodes@.len() ==> match (#[trigger] self.nodes@[n]).children {
                Children::Rows { start, len } => start + len <= self.row_ids@.len(),
                Children::Groups(_) => true,
            }
    }

    /// The group nodes.
    pub closed spec fn nodes_view(&self) -> Seq<GroupNode> {
        self.nodes@
    }

    /// The grouped rows, in tree order.
    pub closed spec fn row_ids_view(&self) -> Seq<u32> {
        self.row_ids@
    }

    /// The top-level group ids.
    pub closed spec fn roots_view(&self) -> Seq<usize> {
        self.roots@
    }

    /// Number of top-level groups.
    pub fn root_count(&self) -> (res: usize)
        ensures
            res == self.roots_view().len(),
    {
        self.roots.len()
    }

    /// The i-th top-level group as an [`Item`], or `None` if out of range.
    pub fn root_child(&self, index: usize) -> (res: Option<Item>)
        ensures
            res == if index < self.roots_view().len() {
                Some(Item::Group(self.roots_view()[index as int]))
            } else {
                None::<Item>
            },
    {
        if index < self.roots.len() {
            Some(Item::Group(self.roots[index]))
        } else {
            None
        }
    }

    /// Number of children of `item` (sub-groups or rows). Rows and unknown
    /// groups have none.
    pub fn child_count(&self, item: Item) -> (res: usize)
        ensures
            res == match item {
                Item::Group(n) => if n < self.nodes_view().len() {
                    match self.nodes_view()[n as int].sub_groups() {
                        Some(g) => g.len() as int,
                        None => (self.nodes_view()[n as int].row_range()->0).1,
                    }
                } else {
                    0
                },
                Item::Row(_) => 0,
            },
    {
        match item {
            Item::Group(n) => {
                if n < self.nodes.len() {
                    match &self.nodes[n].children {
                        Children::Groups(g) => g.len(),
                        Children::Rows { len, .. } => *len,
                    }
                } else {
                    0
                }
            },
            Item::Row(_) => 0,
        }
    }

    /// The i-th child of `item`, or `None` if out of range or `item` is a
    /// row.
    pub fn child(&self, item: Item, index: usize) -> (res: Option<Item>)
        ensures
            res == match item {
                Item::Group(n) => if n < self.nodes_view().len() {
                    match self.nodes_view()[n as int].sub_groups() {
                        Some(g) => if index < g.len() {
                            Some(Item::Group(g[index as int]))
                        } else {
                            None
                        },
                        None => {
                            let (start, len) = self.nodes_view()[n as int].row_range()->0;
                            if index < len {
                                Some(Item::Row(self.row_ids_view()[start + index]))
                            } else {
                                None
                            }
                        },
                    }
                } else {
                    None
                },
                Item::Row(_) => None,
            },
    {
        proof {
            use_type_invariant(self);
        }
        match item {
            Item::Group(n) => {
                if n >= self.nodes.len() {
                    return None;
                }
                let node = &self.nodes[n];
                assert(self.nodes@[n as int] == *node);
                match &node.children {
                    Children::Groups(g) => {
                        if index < g.len() {
                            Some(Item::Group(g[index]))
                        } else {
                            None
                        }
                    },
                    Children::Rows { start, len } => {
                        assert(node.children == Children::Rows { start: *start, len: *len });
                        let _rows = self.row_ids.len();
                        if index < *len {
                            Some(Item::Row(self.row_ids[*start + index]))
                        } else {
                            None
                        }
                    },
                }
            },
            Item::Row(_) => None,
        }
    }

    /// True when `item` is an expandable group node.
    pub fn is_group(&self, item: Item) -> (res: bool)
        ensures
            res == (item matches Item::Group(n) && n < self.nodes_view().len()),
    {
        match item {
            Item::Group(n) => n < self.nodes.len(),
            Item::Row(_) => false,
        }
    }

    /// Group label (the column value). Empty for rows and unknown groups.
    pub fn label(&self, item: Item) -> (res: &str)
        ensures
            res@ == match item {
                Item::Group(n) => if n < self.nodes_view().len() {
                    self.nodes_view()[n as int].label_view()
                } else {
                    Seq::empty()
                },
                Item::Row(_) => Seq::empty(),
            },
    {
        proof {
            reveal_strlit("");
        }
        match item {
            Item::Group(n) => {
                if n < self.nodes.len() {
                    self.nodes[n].label.as_str()
                } else {
                    ""
                }
            },
            Item::Row(_) => "",
        }
    }

    /// Number of rows under `item`: the group's count, or 1 for a row.
    pub fn count(&self, item: Item) -> (res: u64)
        ensures
            res == match item {
                Item::Group(n) => if n < self.nodes_view().len() {
                    self.nodes_view()[n as int].count_view()
                } else {
                    0
                },
                Item::Row(_) => 1,
            },
    {
        match item {
            Item::Group(n) => {
                if n < self.nodes.len() {
                    self.nodes[n].count
                } else {
                    0
                }
            },
            Item::Row(_) => 1,
        }
    }

    /// The data row id of a row item, `None` for a group.
    pub fn row(&self, item: Item) -> (res: Option<u32>)
        ensures
            res == match item {
                Item::Row(r) => Some(r),
                Item::Group(_) => None::<u32>,
            },
    {
        match item {
            Item::Row(r) => Some(r),
            Item::Group(_) => None,
        }
    }
}

/// Build a grouping tree for `view` over `cols` (in nesting order).
/// `computed[p][l]` is the key of column `cols[l]` for view position `p`.
/// Rows are ordered by their keys (ascending, stable); each maximal run of
/// equal keys at a level is one group.
pub fn build(dataset: &Dataset, view: &View, cols: &[usize], computed: &Vec<Vec<CellKey>>) -> (res: GroupTree)
    requires
        dataset.wf(),
        cols@.len() > 0 ==> computed@.len() == view.ids().len() && keys_fit(
            ascending_keys(cols@),
            key_rows(computed@),
        ),
    ensures
        cols@.len() == 0 || view.ids().len() == 0 ==> res.row_ids_view() == view.ids()
            && res.roots_view().len() == 0 && res.nodes_view().len() == 0,
        cols@.len() > 0 && view.ids().len() > 0 ==> exists|order: Seq<usize>|
            #![trigger is_sorted_order(order, computed@.len(), ascending_keys(cols@), key_rows(computed@))]
            {
                &&& is_sorted_order(order, computed@.len(), ascending_keys(cols@), key_rows(computed@))
                &&& order.len() == view.ids().len()
                &&& res.row_ids_view() == Seq::new(order.len(), |i: int| view.ids()[order[i] as int])
                &&& level_ok(
                    *dataset,
                    cols@,
                    res.row_ids_view(),
                    Seq::new(order.len(), |i: int| key_rows(computed@)[order[i] as int]),
                    res.nodes_view(),
                    res.roots_view(),
                    0,
                    0,
                    order.len() as int,
                )
            },
{
    let ids = view.iter();
    if cols.len() == 0 || ids.len() == 0 {
        return GroupTree { nodes: Vec::new(), row_ids: ids, roots: Vec::new() };
    }
    let mut keys: Vec<SortKey> = Vec::new();
    let mut c: usize = 0;
    while c < cols.len()
        invariant
            c <= cols@.len(),
            keys@ == ascending_keys(cols@).subrange(0, c as int),
        decreases cols@.len() - c,
    {
        keys.push(SortKey { col: cols[c], ascending: true });
        c += 1;
        proof {
            assert(keys@ =~= ascending_keys(cols@).subrange(0, c as int));
        }
    }
    proof {
        assert(keys@ =~= ascending_keys(cols@));
    }
    let order = sorted_order(keys.as_slice(), computed);
    let n = order.len();
    let mut sorted_ids: Vec<u32> = Vec::new();
    let mut i: usize = 0;
    while i < n
        invariant
            i <= n,
            n == order@.len(),
            n == ids@.len(),
            ids@ == view.ids(),
            computed@.len() == ids@.len(),
            is_sorted_order(order@, computed@.len(), keys@, key_rows(computed@)),
            sorted_ids@ == Seq::new(i as nat, |k: int| ids@[order@[k] as int]),
        decreases n - i,
    {
        proof {
            crate::sort::lemma_order_in_range(order@, ids@.len(), i as int);
        }
        sorted_ids.push(ids[order[i]]);
        i += 1;
        proof {
            assert(sorted_ids@ =~= Seq::new(i as nat, |k: int| ids@[order@[k] as int]));
        }
    }
    let ghost rows = Seq::new(order@.len(), |i: int| key_rows(computed@)[order@[i] as int]);
    proof {
        assert forall|p: int| 0 <= p < order@.len() implies #[trigger] order@[p] < computed@.len() by {
            crate::sort::lemma_order_in_range(order@, ids@.len(), p);
        }
        assert forall|p: int| 0 <= p < rows.len() implies #[trigger] rows[p].len() == cols@.len() by {
            crate::sort::lemma_order_in_range(order@, ids@.len(), p);
            assert(key_rows(computed@)[order@[p] as int].len() == keys@.len());
        }
    }
    let mut nodes: Vec<GroupNode> = Vec::new();
    let roots = build_level(dataset, cols, &sorted_ids, computed, &order, Ghost(rows), 0, 0, n, &mut nodes);
    GroupTree { nodes, row_ids: sorted_ids, roots }
}

/// Build a grouping tree for `view` over the values of its cells in `cols`
/// (in nesting order). `numbers[p][l]` is the reading as a number of cell
/// `(view row p, cols[l])` (`None` where it does not read as one): numbers
/// group before text, text case-insensitively. Rows are ordered by these
/// keys (ascending, stable); each maximal run of equal keys at a level is one
/// group.
pub fn build_by_cells(
    dataset: &Dataset,
    view: &View,
    cols: &[usize],
    numbers: &Vec<Vec<Option<u64>>>,
) -> (res: GroupTree)
    requires
        dataset.wf(),
        cols@.len() > 0 ==> numbers_fit(numbers@, view.ids().len() as int, cols@.len() as int),
    ensures
        cols@.len() == 0 || view.ids().len() == 0 ==> res.row_ids_view() == view.ids()
            && res.roots_view().len() == 0 && res.nodes_view().len() == 0,
        cols@.len() > 0 && view.ids().len() > 0 ==> exists|rows: Seq<Seq<CellKey>>, order: Seq<usize>|
            #![trigger is_sorted_order(order, view.ids().len(), ascending_keys(cols@), rows)]
            {
                &&& cells_keyed(*dataset, view.ids(), ascending_keys(cols@), numbers@, rows)
                &&& is_sorted_order(order, view.ids().len(), ascending_keys(cols@), rows)
                &&& order.len() == view.ids().len()
                &&& res.row_ids_view() == Seq::new(order.len(), |i: int| view.ids()[order[i] as int])
                &&& level_ok(
                    *dataset,
                    cols@,
                    res.row_ids_view(),
                    Seq::new(order.len(), |i: int| rows[order[i] as int]),
                    res.nodes_view(),
                    res.roots_view(),
                    0,
                    0,
                    order.len() as int,
                )
            },
{
    if cols.len() == 0 {
        let empty: Vec<Vec<CellKey>> = Vec::new();
        return build(dataset, view, cols, &empty);
    }
    let mut keys: Vec<SortKey> = Vec::new();
    let mut c: usize = 0;
    while c < cols.len()
        invariant
            c <= cols@.len(),
            keys@ == ascending_keys(cols@).subrange(0, c as int),
        decreases cols@.len() - c,
    {
        keys.push(SortKey { col: cols[c], ascending: true });
        c += 1;
        proof {
            assert(keys@ =~= ascending_keys(cols@).subrange(0, c as int));
        }
    }
    proof {
        assert(keys@ =~= ascending_keys(cols@));
    }
    let ids = view.iter();
    let computed = cell_keys(dataset, &ids, keys.as_slice(), numbers);
    let res = build(dataset, view, cols, &computed);
    proof {
        if view.ids().len() > 0 {
            let rows = key_rows(computed@);
            let order = choose|order: Seq<usize>|
                #![trigger is_sorted_order(order, computed@.len(), ascending_keys(cols@), key_rows(computed@))]
                {
                    &&& is_sorted_order(order, computed@.len(), ascending_keys(cols@), key_rows(computed@))
                    &&& order.len() == view.ids().len()
                    &&& res.row_ids_view() == Seq::new(order.len(), |i: int| view.ids()[order[i] as int])
                    &&& level_ok(
                        *dataset,
                        cols@,
                        res.row_ids_view(),
                        Seq::new(order.len(), |i: int| key_rows(computed@)[order[i] as int]),
                        res.nodes_view(),
                        res.roots_view(),
                        0,
                        0,
                        order.len() as int,
                    )
                };
            assert(is_sorted_order(order, view.ids().len(), ascending_keys(cols@), rows));
        }
    }
    res
}

/// Build the group nodes of rows `[start, end)` (of the sorted order) at
/// `depth`, returning the ids of the nodes made for this level.
fn build_level(
    dataset: &Dataset,
    cols: &[usize],
    sorted_ids: &Vec<u32>,
    computed: &Vec<Vec<CellKey>>,
    order: &Vec<usize>,
    Ghost(rows): Ghost<Seq<Seq<CellKey>>>,
    depth: usize,
    start: usize,
    end: usize,
    nodes: &mut Vec<GroupNode>,
) -> (res: Vec<usize>)
    requires
        dataset.wf(),
        depth < cols@.len(),
        start <= end <= sorted_ids@.len(),
        order@.len() == sorted_ids@.len(),
        rows == Seq::new(order@.len(), |i: int| key_rows(computed@)[order@[i] as int]),
        forall|p: int| 0 <= p < rows.len() ==> #[trigger] rows[p].len() == cols@.len(),
        forall|p: int| 0 <= p < order@.len() ==> #[trigger] order@[p] < computed@.len(),
        forall|m: int|
            0 <= m < old(nodes)@.len() ==> match (#[trigger] old(nodes)@[m]).children {
                Children::Rows { start, len } => start + len <= sorted_ids@.len(),
                Children::Groups(_) => true,
            },
    ensures
        final(nodes)@.len() >= old(nodes)@.len(),
        forall|m: int| 0 <= m < old(nodes)@.len() ==> #[trigger] final(nodes)@[m] == old(nodes)@[m],
        forall|m: int|
            0 <= m < final(nodes)@.len() ==> match (#[trigger] final(nodes)@[m]).children {
                Children::Rows { start, len } => start + len <= sorted_ids@.len(),
                Children::Groups(_) => true,
            },
        level_ok(
            *dataset,
            cols@,
            sorted_ids@,
            rows,
            final(nodes)@,
            res@,
            depth as int,
            start as int,
            end as int,
        ),
    decreases cols@.len() - depth,
{
    let ghost orig = nodes@;
    let mut result: Vec<usize> = Vec::new();
    let ghost mut done: Seq<(int, int)> = seq![];
    let mut i = start;
    while i < end
        invariant
            dataset.wf(),
            depth < cols@.len(),
            start <= i <= end <= sorted_ids@.len(),
            order@.len() == sorted_ids@.len(),
            rows == Seq::new(order@.len(), |i: int| key_rows(computed@)[order@[i] as int]),
            forall|p: int| 0 <= p < rows.len() ==> #[trigger] rows[p].len() == cols@.len(),
            forall|p: int| 0 <= p < order@.len() ==> #[trigger] order@[p] < computed@.len(),
            nodes@.len() >= orig.len(),
            forall|m: int| 0 <= m < orig.len() ==> #[trigger] nodes@[m] == orig[m],
            forall|m: int|
                0 <= m < nodes@.len() ==> match (#[trigger] nodes@[m]).children {
                    Children::Rows { start, len } => start + len <= sorted_ids@.len(),
                    Children::Groups(_) => true,
                },
            runs(rows, depth as int, start as int, end as int) == done + runs(rows, depth as int, i as int, end as int),
            result@.len() == done.len(),
            forall|k: int|
                0 <= k < done.len() ==> group_ok(
                    *dataset,
                    cols@,
                    sorted_ids@,
                    rows,
                    nodes@,
                    #[trigger] result@[k],
                    depth as int,
                    done[k].0,
                    done[k].1,
                ),
        decreases end - i,
    {
        let mut j = i + 1;
        while j < end && compare_run_keys(computed, order, depth, j, i) == 0
            invariant
                i < j <= end,
                end <= order@.len(),
                rows == Seq::new(order@.len(), |i: int| key_rows(computed@)[order@[i] as int]),
                forall|p: int| 0 <= p < rows.len() ==> #[trigger] rows[p].len() == cols@.len(),
                forall|p: int| 0 <= p < order@.len() ==> #[trigger] order@[p] < computed@.len(),
                depth < cols@.len(),
                run_end(rows, depth as int, i as int, end as int) == run_scan(
                    rows,
                    depth as int,
                    i as int,
                    j as int,
                    end as int,
                ),
            decreases end - j,
        {
            j += 1;
        }
        let label = dataset.cell(sorted_ids[i] as usize, cols[depth]);
        let count = (j - i) as u64;
        let ghost before = nodes@;
        let children = if depth + 1 < cols.len() {
            let sub = build_level(dataset, cols, sorted_ids, computed, order, Ghost(rows), depth + 1, i, j, nodes);
            Children::Groups(sub)
        } else {
            Children::Rows { start: i, len: j - i }
        };
        let ghost mid = nodes@;
        let id = nodes.len();
        nodes.push(GroupNode { label, count, children });
        result.push(id);
        proof {
            let rs_i = runs(rows, depth as int, i as int, end as int);
            assert(rs_i == seq![(i as int, j as int)] + runs(rows, depth as int, j as int, end as int));
            assert forall|k: int| 0 <= k < done.len() implies group_ok(
                *dataset,
                cols@,
                sorted_ids@,
                rows,
                nodes@,
                #[trigger] result@[k],
                depth as int,
                done[k].0,
                done[k].1,
            ) by {
                lemma_group_ok_extend(*dataset, cols@, sorted_ids@, rows, before, nodes@, result@[k], depth as int, done[k].0, done[k].1);
            }
            if depth + 1 < cols.len() {
                assert forall|m: int| 0 <= m < mid.len() implies #[trigger] nodes@[m] == mid[m] by {}
                let sub = nodes@[id as int].sub_groups()->0;
                lemma_level_ok_extend(*dataset, cols@, sorted_ids@, rows, mid, nodes@, sub, depth + 1, i as int, j as int);
            }
            assert(group_ok(*dataset, cols@, sorted_ids@, rows, nodes@, id, depth as int, i as int, j as int));
            done = done.push((i as int, j as int));
            assert(runs(rows, depth as int, start as int, end as int) =~= done + runs(rows, depth as int, j as int, end as int));
        }
        i = j;
    }
    proof {
        assert(runs(rows, depth as int, start as int, end as int) =~= done);
    }
    result
}

/// Compare the keys of sorted rows `j` and `i` at `depth`.
fn compare_run_keys(computed: &Vec<Vec<CellKey>>, order: &Vec<usize>, depth: usize, j: usize, i: usize) -> (res: i8)
    requires
        j < order@.len(),
        i < order@.len(),
        order@[j as int] < computed@.len(),
        order@[i as int] < computed@.len(),
        depth < computed@[order@[j as int] as int]@.len(),
        depth < computed@[order@[i as int] as int]@.len(),
    ensures
        res == 0 <==> cell_order(
            computed@[order@[j as int] as int]@[depth as int],
            computed@[order@[i as int] as int]@[depth as int],
        ) == 0,
{
    crate::sort::compare_cells(&computed[order[j]][depth], &computed[order[i]][depth])
}

proof fn lemma_group_ok_extend(
    ds: Dataset,
    cols: Seq<usize>,
    ids: Seq<u32>,
    rows: Seq<Seq<CellKey>>,
    n1: Seq<GroupNode>,
    n2: Seq<GroupNode>,
    g: usize,
    depth: int,
    s: int,
    e: int,
)
    requires
        group_ok(ds, cols, ids, rows, n1, g, depth, s, e),
        n1.len() <= n2.len(),
        forall|m: int| 0 <= m < n1.len() ==> #[trigger] n2[m] == n1[m],
    ensures
        group_ok(ds, cols, ids, rows, n2, g, depth, s, e),
    decreases cols.len() - depth, 0int,
{
    if 0 <= depth && depth + 1 < cols.len() {
        let sub = n1[g as int].sub_groups()->0;
        lemma_level_ok_extend(ds, cols, ids, rows, n1, n2, sub, depth + 1, s, e);
    }
}

proof fn lemma_level_ok_extend(
    ds: Dataset,
    cols: Seq<usize>,
    ids: Seq<u32>,
    rows: Seq<Seq<CellKey>>,
    n1: Seq<GroupNode>,
    n2: Seq<GroupNode>,
    gids: Seq<usize>,
    depth: int,
    start: int,
    end: int,
)
    requires
        level_ok(ds, cols, ids, rows, n1, gids, depth, start, end),
        n1.len() <= n2.len(),
        forall|m: int| 0 <= m < n1.len() ==> #[trigger] n2[m] == n1[m],
    ensures
        level_ok(ds, cols, ids, rows, n2, gids, depth, start, end),
    decreases cols.len() - depth, 1int,
{
    let rs = runs(rows, depth, start, end);
    assert forall|k: int| 0 <= k < rs.len() implies group_ok(
        ds,
        cols,
        ids,
        rows,
        n2,
        #[trigger] gids[k],
        depth,
        rs[k].0,
        rs[k].1,
    ) by {
        lemma_group_ok_extend(ds, cols, ids, rows, n1, n2, gids[k], depth, rs[k].0, rs[k].1);
    }
}

} // verus!
