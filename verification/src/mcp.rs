//! The decisions of the agent-facing (Model Context Protocol) server:
//! request routing, the registry of open timelines with their current views,
//! row paging and value distributions.
//!
//! Message framing (JSON-RPC over a byte stream) and file access belong to
//! the caller, which hands plain values in and formats the plain values that
//! come back.

use std::collections::HashMap;
use vstd::prelude::*;
use vstd::view::View as _;
use crate::dataset::Dataset;
use crate::error::NexusError;
use crate::group::GroupTree;
use crate::query::{column_named, find_column};
use crate::schema::string_views;
use crate::sort::{is_sorted_order, key_rows, sorted_order, CellKey, SortKey};
use crate::text::str_chars;
use crate::view::View;

verus! {

broadcast use vstd::std_specs::hash::group_hash_axioms;

/// JSON-RPC: the message is not JSON.
pub const PARSE_ERROR: i64 = -32700;

/// JSON-RPC: the message is not a request.
pub const INVALID_REQUEST: i64 = -32600;

/// JSON-RPC: no such method.
pub const METHOD_NOT_FOUND: i64 = -32601;

/// JSON-RPC: the parameters are unusable.
pub const INVALID_PARAMS: i64 = -32602;

/// Rows per page when the caller names no limit.
pub const DEFAULT_PAGE_ROWS: u64 = 50;

/// The largest page of rows served at once.
pub const MAX_PAGE_ROWS: u64 = 1000;

/// Values listed by a distribution when the caller names no limit.
pub const DEFAULT_DISTRIBUTION_VALUES: u64 = 20;

/// A protocol-level error: a JSON-RPC error code and message.
pub struct RpcError {
    pub code: i64,
    pub message: String,
}

impl RpcError {
    /// An error with `code` and `message`.
    pub fn new(code: i64, message: String) -> (res: RpcError)
        ensures
            res.code == code,
            res.message@ == message@,
    {
        RpcError { code, message }
    }
}

/// The protocol methods the server answers.
#[derive(Debug, Clone, Copy, PartialEq, Eq, Structural)]
pub enum Method {
    Initialize,
    Ping,
    ToolsList,
    ToolsCall,
    Unknown,
}

/// The method a request names.
pub open spec fn method_of(name: Seq<char>) -> Method {
    if name == "initialize"@ {
        Method::Initialize
    } else if name == "ping"@ {
        Method::Ping
    } else if name == "tools/list"@ {
        Method::ToolsList
    } else if name == "tools/call"@ {
        Method::ToolsCall
    } else {
        Method::Unknown
    }
}

/// The method a request names.
pub fn method_kind(name: &str) -> (res: Method)
    ensures
        res == method_of(name@),
{
    if crate::text::str_eq(name, "initialize") {
        Method::Initialize
    } else if crate::text::str_eq(name, "ping") {
        Method::Ping
    } else if crate::text::str_eq(name, "tools/list") {
        Method::ToolsList
    } else if crate::text::str_eq(name, "tools/call") {
        Method::ToolsCall
    } else {
        Method::Unknown
    }
}

/// The tools the server offers.
#[derive(Debug, Clone, Copy, PartialEq, Eq, Structural)]
pub enum Tool {
    OpenTimeline,
    ListTimelines,
    TimelineInfo,
    Search,
    ResetFilter,
    GetRows,
    ColumnDistribution,
    CloseTimeline,
    Unknown,
}

/// The tool a call names.
pub open spec fn tool_of(name: Seq<char>) -> Tool {
    if name == "open_timeline"@ {
        Tool::OpenTimeline
    } else if name == "list_timelines"@ {
        Tool::ListTimelines
    } else if name == "timeline_info"@ {
        Tool::TimelineInfo
    } else if name == "search"@ {
        Tool::Search
    } else if name == "reset_filter"@ {
        Tool::ResetFilter
    } else if name == "get_rows"@ {
        Tool::GetRows
    } else if name == "column_distribution"@ {
        Tool::ColumnDistribution
    } else if name == "close_timeline"@ {
        Tool::CloseTimeline
    } else {
        Tool::Unknown
    }
}

/// The tool a call names.
pub fn tool_kind(name: &str) -> (res: Tool)
    ensures
        res == tool_of(name@),
{
    if crate::text::str_eq(name, "open_timeline") {
        Tool::OpenTimeline
    } else if crate::text::str_eq(name, "list_timelines") {
        Tool::ListTimelines
    } else if crate::text::str_eq(name, "timeline_info") {
        Tool::TimelineInfo
    } else if crate::text::str_eq(name, "search") {
        Tool::Search
    } else if crate::text::str_eq(name, "reset_filter") {
        Tool::ResetFilter
    } else if crate::text::str_eq(name, "get_rows") {
        Tool::GetRows
    } else if crate::text::str_eq(name, "column_distribution") {
        Tool::ColumnDistribution
    } else if crate::text::str_eq(name, "close_timeline") {
        Tool::CloseTimeline
    } else {
        Tool::Unknown
    }
}

/// The tools listed by `tools/list`, in catalogue order: every tool the
/// server dispatches, each once.
pub open spec fn catalog() -> Seq<Tool> {
    seq![
        Tool::OpenTimeline,
        Tool::ListTimelines,
        Tool::TimelineInfo,
        Tool::Search,
        Tool::ResetFilter,
        Tool::GetRows,
        Tool::ColumnDistribution,
        Tool::CloseTimeline,
    ]
}

/// The tools listed by `tools/list`, in catalogue order.
pub fn catalog_tools() -> (res: Vec<Tool>)
    ensures
        res@ == catalog(),
{
    let res = vec![
        Tool::OpenTimeline,
        Tool::ListTimelines,
        Tool::TimelineInfo,
        Tool::Search,
        Tool::ResetFilter,
        Tool::GetRows,
        Tool::ColumnDistribution,
        Tool::CloseTimeline,
    ];
    proof {
        assert(res@ =~= catalog());
    }
    res
}

/// The name under which a tool is listed and called: calling that name
/// dispatches to the tool.
pub fn tool_name(tool: Tool) -> (res: &'static str)
    requires
        tool != Tool::Unknown,
    ensures
        tool_of(res@) == tool,
{
    proof {
        reveal_strlit("open_timeline");
        reveal_strlit("list_timelines");
        reveal_strlit("timeline_info");
        reveal_strlit("search");
        reveal_strlit("reset_filter");
        reveal_strlit("get_rows");
        reveal_strlit("column_distribution");
        reveal_strlit("close_timeline");
    }
    let res = match tool {
        Tool::OpenTimeline => "open_timeline",
        Tool::ListTimelines => "list_timelines",
        Tool::TimelineInfo => "timeline_info",
        Tool::Search => "search",
        Tool::ResetFilter => "reset_filter",
        Tool::GetRows => "get_rows",
        Tool::ColumnDistribution => "column_distribution",
        Tool::CloseTimeline => "close_timeline",
        Tool::Unknown => "",
    };
    proof {
        // The names are told apart by their lengths and first characters.
        assert("open_timeline"@.len() == 13 && "open_timeline"@[0] == 'o');
        assert("list_timelines"@.len() == 14 && "list_timelines"@[0] == 'l');
        assert("timeline_info"@.len() == 13 && "timeline_info"@[0] == 't');
        assert("search"@.len() == 6);
        assert("reset_filter"@.len() == 12);
        assert("get_rows"@.len() == 8);
        assert("column_distribution"@.len() == 19);
        assert("close_timeline"@.len() == 14 && "close_timeline"@[0] == 'c');
    }
    res
}

/// The catalogue lists exactly the tools that are dispatched: every tool but
/// `Unknown` occurs in it exactly once, and `Unknown` does not.
pub proof fn law_catalog_lists_dispatched_tools(tool: Tool)
    ensures
        catalog().contains(tool) <==> tool != Tool::Unknown,
        tool != Tool::Unknown ==> exists|i: int|
            0 <= i < catalog().len() && catalog()[i] == tool && forall|j: int|
                0 <= j < catalog().len() && #[trigger] catalog()[j] == tool ==> j == i,
{
    let c = catalog();
    if tool != Tool::Unknown {
        let i: int = match tool {
            Tool::OpenTimeline => 0,
            Tool::ListTimelines => 1,
            Tool::TimelineInfo => 2,
            Tool::Search => 3,
            Tool::ResetFilter => 4,
            Tool::GetRows => 5,
            Tool::ColumnDistribution => 6,
            Tool::CloseTimeline => 7,
            Tool::Unknown => 0,
        };
        assert(c[i] == tool);
    } else {
        assert(!c.contains(Tool::Unknown)) by {
            if c.contains(Tool::Unknown) {
                let k = choose|k: int| 0 <= k < c.len() && c[k] == Tool::Unknown;
                assert(c[k] != Tool::Unknown);
            }
        }
    }
}

/// How a well-formed JSON message is answered.
#[derive(Debug, Clone, Copy, PartialEq, Eq, Structural)]
pub enum Reply {
    /// No reply: a notification, or a message with neither method nor id.
    Silent,
    /// An `INVALID_REQUEST` error: an id but no method.
    InvalidRequest,
    /// Dispatch the method and answer with its outcome.
    Dispatch,
}

/// How a message with or without a method and an id is answered.
pub fn reply_kind(has_method: bool, has_id: bool) -> (res: Reply)
    ensures
        res == if !has_id {
            Reply::Silent
        } else if !has_method {
            Reply::InvalidRequest
        } else {
            Reply::Dispatch
        },
{
    if !has_id {
        Reply::Silent
    } else if !has_method {
        Reply::InvalidRequest
    } else {
        Reply::Dispatch
    }
}

/// A page of the current view: positions `[offset, end)`, asked for with
/// `limit`.
#[derive(Debug, Clone, Copy, PartialEq, Eq, Structural)]
pub struct Page {
    pub offset: u64,
    pub limit: u64,
    pub end: u64,
}

/// The page asked for: `limit` defaults to 50 and is capped at 1000; the
/// page ends at `offset + limit` (saturating) or at the view's end.
pub open spec fn page_of(offset: Option<u64>, limit: Option<u64>, count: u64) -> Page {
    let o = match offset {
        Some(x) => x,
        None => 0u64,
    };
    let asked = match limit {
        Some(x) => x,
        None => DEFAULT_PAGE_ROWS,
    };
    let l = if asked < MAX_PAGE_ROWS {
        asked
    } else {
        MAX_PAGE_ROWS
    };
    let reach = if o + l <= u64::MAX {
        (o + l) as u64
    } else {
        u64::MAX
    };
    Page { offset: o, limit: l, end: if reach < count { reach } else { count } }
}

/// The page asked for (see [`page_of`]).
pub fn page_window(offset: Option<u64>, limit: Option<u64>, count: u64) -> (res: Page)
    ensures
        res == page_of(offset, limit, count),
{
    let o = match offset {
        Some(x) => x,
        None => 0,
    };
    let asked = match limit {
        Some(x) => x,
        None => DEFAULT_PAGE_ROWS,
    };
    let l = if asked < MAX_PAGE_ROWS {
        asked
    } else {
        MAX_PAGE_ROWS
    };
    let reach = o.saturating_add(l);
    Page { offset: o, limit: l, end: if reach < count { reach } else { count } }
}

/// An opened timeline and its current filtered view.
pub struct Timeline {
    pub path: String,
    pub dataset: Dataset,
    pub current_view: View,
}

/// Why a tool call on a timeline failed.
#[derive(Debug)]
pub enum ToolError {
    /// No open timeline has this id.
    NoTimeline(u64),
    /// The engine refused the request.
    Engine(NexusError),
}

/// The registry of open timelines. Ids start at 1 and are never handed out
/// twice.
pub struct Timelines {
    map: HashMap<u64, Timeline>,
    /// The open ids, ascending.
    ids: Vec<u64>,
    next_id: u64,
}

impl Timelines {
    /// The open timelines by id.
    pub closed spec fn entries(&self) -> Map<u64, Timeline> {
        self.map@
    }

    /// The open ids, in listing order.
    pub closed spec fn open_ids(&self) -> Seq<u64> {
        self.ids@
    }

    /// The id the next opened timeline gets.
    pub closed spec fn next(&self) -> u64 {
        self.next_id
    }

    /// The ids listed are exactly the open ones, ascending, all below the
    /// next id; every open dataset is well formed.
    pub closed spec fn wf(&self) -> bool {
        &&& self.next_id >= 1
        &&& forall|i: int, j: int| 0 <= i < j < self.ids@.len() ==> self.ids@[i] < self.ids@[j]
        &&& forall|k: u64| #[trigger] self.map@.contains_key(k) <==> self.ids@.contains(k)
        &&& forall|i: int| 0 <= i < self.ids@.len() ==> 1 <= #[trigger] self.ids@[i] < self.next_id
        &&& forall|k: u64| #[trigger] self.map@.contains_key(k) ==> self.map@[k].dataset.wf()
    }

    /// An empty registry.
    pub fn new() -> (res: Timelines)
        ensures
            res.wf(),
            res.entries().is_empty(),
            res.open_ids().len() == 0,
            res.next() == 1,
    {
        Timelines { map: HashMap::new(), ids: Vec::new(), next_id: 1 }
    }

    /// The id the next opened timeline gets.
    pub fn next_id(&self) -> (res: u64)
        ensures
            res == self.next(),
    {
        self.next_id
    }

    /// The open ids, ascending.
    pub fn ids(&self) -> (res: &[u64])
        ensures
            res@ == self.open_ids(),
    {
        self.ids.as_slice()
    }

    /// The timeline with id `id`, if open.
    pub fn get(&self, id: u64) -> (res: Option<&Timeline>)
        requires
            self.wf(),
        ensures
            match res {
                Some(t) => self.entries().contains_key(id) && *t == self.entries()[id],
                None => !self.entries().contains_key(id),
            },
    {
        self.map.get(&id)
    }

    /// Register `dataset`, read from `path`, with the view of all its rows;
    /// returns its id, which no timeline had before.
    pub fn open(&mut self, path: String, dataset: Dataset) -> (res: u64)
        requires
            old(self).wf(),
            dataset.wf(),
            old(self).next() < u64::MAX,
        ensures
            final(self).wf(),
            res == old(self).next(),
            !old(self).entries().contains_key(res),
            final(self).next() == res + 1,
            final(self).open_ids() == old(self).open_ids().push(res),
            final(self).entries().dom() == old(self).entries().dom().insert(res),
            forall|k: u64| k != res && #[trigger] old(self).entries().contains_key(k)
                ==> final(self).entries()[k] == old(self).entries()[k],
            final(self).entries()[res].path@ == path@,
            final(self).entries()[res].dataset == dataset,
            final(self).entries()[res].current_view == View::All(dataset.row_count_spec() as u64),
    {
        let id = self.next_id;
        let view = dataset.view_all();
        proof {
            if self.map@.contains_key(id) {
                assert(self.ids@.contains(id));
            }
        }
        self.map.insert(id, Timeline { path, dataset, current_view: view });
        self.ids.push(id);
        self.next_id = id + 1;
        proof {
            assert forall|k: u64| #[trigger] self.map@.contains_key(k) <==> self.ids@.contains(k) by {
                if k == id {
                    assert(self.ids@[self.ids@.len() - 1] == id);
                } else if old(self).ids@.contains(k) {
                    let i = choose|i: int| 0 <= i < old(self).ids@.len() && old(self).ids@[i] == k;
                    assert(self.ids@[i] == k);
                }
            }
        }
        id
    }

    /// Close timeline `id`; `true` when it was open.
    pub fn close(&mut self, id: u64) -> (res: bool)
        requires
            old(self).wf(),
        ensures
            final(self).wf(),
            res == old(self).entries().contains_key(id),
            final(self).entries() == old(self).entries().remove(id),
            final(self).open_ids() == old(self).open_ids().filter(other_than(id)),
            final(self).next() == old(self).next(),
    {
        let removed = self.map.remove(&id).is_some();
        let ghost before = self.ids@;
        let mut kept: Vec<u64> = Vec::new();
        let mut i: usize = 0;
        while i < self.ids.len()
            invariant
                i <= before.len(),
                self.ids@ == before,
                kept@ == before.subrange(0, i as int).filter(other_than(id)),
            decreases before.len() - i,
        {
            proof {
                reveal_with_fuel(Seq::<_>::filter, 1);
                assert(before.subrange(0, i + 1).drop_last() =~= before.subrange(0, i as int));
            }
            if self.ids[i] != id {
                kept.push(self.ids[i]);
            }
            i += 1;
        }
        proof {
            assert(before.subrange(0, before.len() as int) =~= before);
            lemma_filter_keeps_order(before, id);
        }
        self.ids = kept;
        proof {
            broadcast use vstd::seq_lib::group_filter_ensures;

            assert forall|k: u64| #[trigger] self.map@.contains_key(k) <==> self.ids@.contains(k) by {
                if self.ids@.contains(k) {
                    before.lemma_filter_contains_rev(other_than(id), k);
                    let j = choose|j: int| 0 <= j < self.ids@.len() && self.ids@[j] == k;
                    before.lemma_filter_pred(other_than(id), j);
                }
                if before.contains(k) && k != id {
                    let j = choose|j: int| 0 <= j < before.len() && before[j] == k;
                    before.lemma_filter_contains(other_than(id), j);
                }
            }
            assert forall|i: int| 0 <= i < self.ids@.len() implies 1 <= #[trigger] self.ids@[i] < self.next_id by {
                assert(self.ids@.contains(self.ids@[i]));
                before.lemma_filter_contains_rev(other_than(id), self.ids@[i]);
            }
        }
        removed
    }

    /// Search timeline `id` with `query` and make the result its current
    /// view; returns the number of matches and the timeline's row count.
    pub fn search(&mut self, id: u64, query: &str) -> (res: Result<(u64, usize), ToolError>)
        requires
            old(self).wf(),
        ensures
            final(self).wf(),
            final(self).open_ids() == old(self).open_ids(),
            final(self).next() == old(self).next(),
            final(self).entries().dom() == old(self).entries().dom(),
            forall|k: u64| k != id && #[trigger] old(self).entries().contains_key(k)
                ==> final(self).entries()[k] == old(self).entries()[k],
            !old(self).entries().contains_key(id) ==> (res matches Err(ToolError::NoTimeline(e)) && e == id),
            old(self).entries().contains_key(id) ==> {
                let before = old(self).entries()[id];
                let after = final(self).entries()[id];
                &&& after.path == before.path
                &&& before.dataset.same_content(after.dataset)
                &&& after.dataset.tag_marks() == before.dataset.tag_marks()
                &&& match crate::query::compiled(query@, before.dataset.column_names()) {
                    Some(tree) => {
                        &&& after.current_view is Filtered
                        &&& after.current_view.ids() == before.dataset.search_results(tree)
                        &&& res matches Ok((matched, total)) && matched as nat
                            == after.current_view.spec_len() % 0x1_0000_0000_0000_0000
                            && total == before.dataset.row_count_spec()
                    },
                    None => {
                        &&& after.current_view == before.current_view
                        &&& res matches Err(ToolError::Engine(NexusError::InvalidQuery(_)))
                    },
                }
            },
    {
        match self.map.remove(&id) {
            None => Err(ToolError::NoTimeline(id)),
            Some(tl) => {
                let Timeline { path, mut dataset, current_view } = tl;
                let outcome = dataset.search_view(query);
                let total = dataset.row_count();
                match outcome {
                    Ok(view) => {
                        let matched = view.len();
                        self.map.insert(id, Timeline { path, dataset, current_view: view });
                        Ok((matched, total))
                    },
                    Err(e) => {
                        self.map.insert(id, Timeline { path, dataset, current_view });
                        Err(ToolError::Engine(e))
                    },
                }
            },
        }
    }

    /// Clear timeline `id`'s filter; returns the size of its view, now all
    /// rows.
    pub fn reset_filter(&mut self, id: u64) -> (res: Result<u64, ToolError>)
        requires
            old(self).wf(),
        ensures
            final(self).wf(),
            final(self).open_ids() == old(self).open_ids(),
            final(self).next() == old(self).next(),
            final(self).entries().dom() == old(self).entries().dom(),
            forall|k: u64| k != id && #[trigger] old(self).entries().contains_key(k)
                ==> final(self).entries()[k] == old(self).entries()[k],
            !old(self).entries().contains_key(id) ==> (res matches Err(ToolError::NoTimeline(e)) && e == id),
            old(self).entries().contains_key(id) ==> {
                let before = old(self).entries()[id];
                let after = final(self).entries()[id];
                &&& after.path == before.path
                &&& after.dataset == before.dataset
                &&& after.current_view == View::All(before.dataset.row_count_spec() as u64)
                &&& res == Ok::<u64, ToolError>(before.dataset.row_count_spec() as u64)
            },
    {
        match self.map.remove(&id) {
            None => Err(ToolError::NoTimeline(id)),
            Some(tl) => {
                let Timeline { path, dataset, current_view: _ } = tl;
                let view = dataset.view_all();
                let count = view.len();
                self.map.insert(id, Timeline { path, dataset, current_view: view });
                Ok(count)
            },
        }
    }
}

/// The rows of a page of `view` over `dataset`: the values of every column
/// for each position of the page that lies in the view.
pub fn page_rows(dataset: &Dataset, view: &View, page: Page) -> (res: Vec<Vec<String>>)
    requires
        dataset.wf(),
        page.end as nat <= view.spec_len(),
    ensures
        page.offset < page.end ==> res@.len() == page.end - page.offset,
        page.offset >= page.end ==> res@.len() == 0,
        forall|p: int| 0 <= p < res@.len() ==> {
            let r = view.spec_row_id((page.offset + p) as u64)->0;
            &&& (#[trigger] res@[p])@.len() == dataset.column_names().len()
            &&& forall|c: int| 0 <= c < res@[p]@.len() ==> (#[trigger] res@[p]@[c])@ == dataset.cell_text(r as int, c)
        },
{
    let mut rows: Vec<Vec<String>> = Vec::new();
    let mut i = page.offset;
    while i < page.end
        invariant
            dataset.wf(),
            page.end as nat <= view.spec_len(),
            page.offset <= i <= page.end || (i == page.offset && page.offset >= page.end),
            rows@.len() == i - page.offset,
            forall|p: int| 0 <= p < rows@.len() ==> {
                let r = view.spec_row_id((page.offset + p) as u64)->0;
                &&& (#[trigger] rows@[p])@.len() == dataset.column_names().len()
                &&& forall|c: int| 0 <= c < rows@[p]@.len() ==> (#[trigger] rows@[p]@[c])@ == dataset.cell_text(r as int, c)
            },
        decreases page.end - i,
    {
        match view.row_id(i) {
            Some(rid) => {
                rows.push(dataset.row_values(rid as usize));
            },
            None => {},
        }
        i += 1;
    }
    rows
}

/// The column `index` names, when it exists.
pub fn column_by_index(dataset: &Dataset, index: u64) -> (res: Option<usize>)
    ensures
        res == if index < dataset.column_names().len() {
            Some(index as usize)
        } else {
            None::<usize>
        },
{
    let n = dataset.column_count();
    if index < n as u64 {
        Some(index as usize)
    } else {
        None
    }
}

/// The first column named `name`, up to ASCII case.
pub fn column_by_name(dataset: &Dataset, name: &str) -> (res: Option<usize>)
    ensures
        res == column_named(dataset.column_names(), name@, 0),
{
    let chars = str_chars(name);
    find_column(dataset.columns(), chars.as_slice())
}

/// Rank keys: by count, most frequent first, then by label.
pub open spec fn rank_keys() -> Seq<SortKey> {
    seq![SortKey { col: 0, ascending: false }, SortKey { col: 1, ascending: true }]
}

/// `rows[i]` holds the count and the label of root group `i` of `tree`.
pub open spec fn rank_rows(tree: GroupTree, rows: Seq<Seq<CellKey>>) -> bool {
    &&& rows.len() == tree.roots_view().len()
    &&& forall|i: int|
        0 <= i < rows.len() ==> {
            let g = tree.roots_view()[i] as int;
            &&& (#[trigger] rows[i]).len() == 2
            &&& rows[i][0] == CellKey::Num(tree.nodes_view()[g].count_view())
            &&& rows[i][1] matches CellKey::Text(v) && v@ == tree.nodes_view()[g].label_view()
        }
}

/// The value distribution of a one-level grouping: each top-level group's
/// label and row count, most frequent first, ties by label (code-point
/// order), at most `limit` of them; and the number of distinct values.
pub fn ranked_values(tree: &GroupTree, limit: usize) -> (res: (Vec<(String, u64)>, usize))
    requires
        forall|i: int|
            0 <= i < tree.roots_view().len() ==> (#[trigger] tree.roots_view()[i]) < tree.nodes_view().len(),
    ensures
        res.1 == tree.roots_view().len(),
        res.0@.len() == if limit < res.1 { limit } else { res.1 },
        exists|rows: Seq<Seq<CellKey>>, order: Seq<usize>|
            #![trigger is_sorted_order(order, rows.len(), rank_keys(), rows), rank_rows(*tree, rows)]
            {
                &&& rank_rows(*tree, rows)
                &&& is_sorted_order(order, rows.len(), rank_keys(), rows)
                &&& forall|i: int|
                    0 <= i < res.0@.len() ==> {
                        let g = tree.roots_view()[order[i] as int] as int;
                        &&& (#[trigger] res.0@[i]).0@ == tree.nodes_view()[g].label_view()
                        &&& res.0@[i].1 == tree.nodes_view()[g].count_view()
                    }
            },
{
    let n = tree.root_count();
    let mut labels: Vec<String> = Vec::new();
    let mut counts: Vec<u64> = Vec::new();
    let mut computed: Vec<Vec<CellKey>> = Vec::new();
    let mut i: usize = 0;
    while i < n
        invariant
            i <= n,
            n == tree.roots_view().len(),
            forall|k: int| 0 <= k < n ==> (#[trigger] tree.roots_view()[k]) < tree.nodes_view().len(),
            labels@.len() == i,
            counts@.len() == i,
            computed@.len() == i,
            forall|k: int|
                #![trigger labels@[k]]
                #![trigger computed@[k]]
                0 <= k < i ==> {
                    let g = tree.roots_view()[k] as int;
                    &&& labels@[k]@ == tree.nodes_view()[g].label_view()
                    &&& counts@[k] == tree.nodes_view()[g].count_view()
                    &&& computed@[k]@.len() == 2
                    &&& computed@[k]@[0] == CellKey::Num(tree.nodes_view()[g].count_view())
                    &&& computed@[k]@[1] matches CellKey::Text(v) && v@ == tree.nodes_view()[g].label_view()
                },
        decreases n - i,
    {
        let item = tree.root_child(i);
        match item {
            Some(it) => {
                let label = tree.label(it);
                let count = tree.count(it);
                let mut keys: Vec<CellKey> = Vec::new();
                keys.push(CellKey::Num(count));
                keys.push(CellKey::Text(str_chars(label)));
                labels.push(label.to_owned());
                counts.push(count);
                computed.push(keys);
            },
            None => {},
        }
        i += 1;
    }
    let ghost rows = key_rows(computed@);
    proof {
        assert forall|p: int| 0 <= p < rows.len() implies #[trigger] rows[p].len() == rank_keys().len() by {
            assert(computed@[p]@.len() == 2);
        }
    }
    let mut keys: Vec<SortKey> = Vec::new();
    keys.push(SortKey { col: 0, ascending: false });
    keys.push(SortKey { col: 1, ascending: true });
    proof {
        assert(keys@ =~= rank_keys());
    }
    let order = sorted_order(keys.as_slice(), &computed);
    let take = if limit < n { limit } else { n };
    let mut out: Vec<(String, u64)> = Vec::new();
    let mut k: usize = 0;
    while k < take
        invariant
            k <= take,
            take <= n,
            n == tree.roots_view().len(),
            order@.len() == n,
            labels@.len() == n,
            counts@.len() == n,
            rows == key_rows(computed@),
            computed@.len() == n,
            is_sorted_order(order@, n as nat, rank_keys(), rows),
            forall|q: int|
                #![trigger computed@[q]]
                0 <= q < n ==> {
                    let g = tree.roots_view()[q] as int;
                    &&& computed@[q]@.len() == 2
                    &&& computed@[q]@[0] == CellKey::Num(tree.nodes_view()[g].count_view())
                    &&& computed@[q]@[1] matches CellKey::Text(v) && v@ == tree.nodes_view()[g].label_view()
                },
            forall|q: int|
                0 <= q < n ==> {
                    let g = tree.roots_view()[q] as int;
                    &&& (#[trigger] labels@[q])@ == tree.nodes_view()[g].label_view()
                    &&& counts@[q] == tree.nodes_view()[g].count_view()
                },
            out@.len() == k,
            forall|q: int|
                0 <= q < k ==> {
                    let g = tree.roots_view()[order@[q] as int] as int;
                    &&& (#[trigger] out@[q]).0@ == tree.nodes_view()[g].label_view()
                    &&& out@[q].1 == tree.nodes_view()[g].count_view()
                },
        decreases take - k,
    {
        proof {
            crate::sort::lemma_order_in_range(order@, n as nat, k as int);
        }
        let p = order[k];
        out.push((labels[p].clone(), counts[p]));
        k += 1;
    }
    proof {
        assert forall|q: int| 0 <= q < rows.len() implies {
            let g = tree.roots_view()[q] as int;
            &&& (#[trigger] rows[q]).len() == 2
            &&& rows[q][0] == CellKey::Num(tree.nodes_view()[g].count_view())
            &&& rows[q][1] matches CellKey::Text(v) && v@ == tree.nodes_view()[g].label_view()
        } by {
            assert(computed@[q]@.len() == 2);
        }
        assert(rank_rows(*tree, rows));
    }
    (out, n)
}

/// Every id but `id`.
pub open spec fn other_than(id: u64) -> spec_fn(u64) -> bool {
    |k: u64| k != id
}

/// A filter that drops `id` keeps the order of what it keeps.
proof fn lemma_filter_keeps_order(s: Seq<u64>, id: u64)
    requires
        forall|i: int, j: int| 0 <= i < j < s.len() ==> s[i] < s[j],
    ensures
        forall|i: int, j: int|
            0 <= i < j < s.filter(other_than(id)).len() ==> s.filter(other_than(id))[i]
                < s.filter(other_than(id))[j],
    decreases s.len(),
{
    broadcast use vstd::seq_lib::group_filter_ensures;

    reveal_with_fuel(Seq::<_>::filter, 1);
    if s.len() > 0 {
        let init = s.drop_last();
        lemma_filter_keeps_order(init, id);
        let fi = init.filter(other_than(id));
        let f = s.filter(other_than(id));
        if s.last() != id {
            assert(f == fi.push(s.last()));
            assert forall|i: int| 0 <= i < fi.len() implies fi[i] < s.last() by {
                assert(fi.contains(fi[i]));
                init.lemma_filter_contains_rev(other_than(id), fi[i]);
                let j = choose|j: int| 0 <= j < init.len() && init[j] == fi[i];
                assert(s[j] == init[j]);
            }
        } else {
            assert(f == fi);
        }
    }
}

} // verus!
