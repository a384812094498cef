use nexus_core::group::build;
use nexus_core::mcp::{
    catalog_tools, column_by_index, column_by_name, method_kind, page_rows, page_window, ranked_values,
    reply_kind, tool_kind, tool_name, Method, Page, Reply, RpcError, Timelines, Tool, ToolError,
};
use nexus_core::sort::{sort_cells, CellKey};
use nexus_core::{Dataset, NexusError, ParserSchema, SortKey, View};

fn dataset(bytes: &[u8]) -> Dataset {
    Dataset::open(bytes.to_vec(), Some(ParserSchema::csv())).unwrap()
}

fn text_keys(ds: &Dataset, view: &View, col: usize) -> Vec<Vec<CellKey>> {
    let ids = view.iter();
    let cells = sort_cells(ds, &ids, &[SortKey { col, ascending: true }]);
    cells
        .iter()
        .map(|row| row.iter().map(|t| CellKey::from_trimmed(t, None)).collect())
        .collect()
}

#[test]
fn methods_and_tools_are_recognized() {
    assert_eq!(method_kind("initialize"), Method::Initialize);
    assert_eq!(method_kind("ping"), Method::Ping);
    assert_eq!(method_kind("tools/list"), Method::ToolsList);
    assert_eq!(method_kind("tools/call"), Method::ToolsCall);
    assert_eq!(method_kind("nope"), Method::Unknown);
    assert_eq!(tool_kind("open_timeline"), Tool::OpenTimeline);
    assert_eq!(tool_kind("column_distribution"), Tool::ColumnDistribution);
    assert_eq!(tool_kind("close_timeline"), Tool::CloseTimeline);
    assert_eq!(tool_kind("Search"), Tool::Unknown);
}

#[test]
fn notifications_are_silent() {
    assert_eq!(reply_kind(true, false), Reply::Silent);
    assert_eq!(reply_kind(false, false), Reply::Silent);
    assert_eq!(reply_kind(false, true), Reply::InvalidRequest);
    assert_eq!(reply_kind(true, true), Reply::Dispatch);
}

#[test]
fn rpc_error_keeps_code_and_message() {
    let e = RpcError::new(-32601, "method not found: nope".to_string());
    assert_eq!(e.code, -32601);
    assert_eq!(e.message, "method not found: nope");
}

#[test]
fn page_window_defaults_and_caps() {
    assert_eq!(page_window(None, None, 3), Page { offset: 0, limit: 50, end: 3 });
    assert_eq!(page_window(Some(10), Some(5000), 5000), Page { offset: 10, limit: 1000, end: 1010 });
    assert_eq!(page_window(Some(u64::MAX), Some(10), 100), Page { offset: u64::MAX, limit: 10, end: 100 });
    assert_eq!(page_window(Some(2), Some(1), 10), Page { offset: 2, limit: 1, end: 3 });
}

#[test]
fn page_rows_follow_the_view() {
    let ds = dataset(b"a,b\n1,x\n2,y\n3,z\n");
    let view = View::Filtered(vec![2, 0]);
    let rows = page_rows(&ds, &view, page_window(Some(0), Some(10), view.len()));
    assert_eq!(rows, vec![vec!["3".to_string(), "z".to_string()], vec!["1".to_string(), "x".to_string()]]);
    let empty = page_rows(&ds, &view, page_window(Some(5), None, view.len()));
    assert!(empty.is_empty());
}

#[test]
fn columns_resolve_by_index_or_name() {
    let ds = dataset(b"Host,Sev\nweb01,INFO\n");
    assert_eq!(column_by_index(&ds, 1), Some(1));
    assert_eq!(column_by_index(&ds, 2), None);
    assert_eq!(column_by_name(&ds, "sev"), Some(1));
    assert_eq!(column_by_name(&ds, "HOST"), Some(0));
    assert_eq!(column_by_name(&ds, "msg"), None);
}

#[test]
fn registry_lifecycle() {
    let mut reg = Timelines::new();
    assert_eq!(reg.next_id(), 1);
    let a = reg.open("a.csv".to_string(), dataset(b"host,sev\nweb01,INFO\nweb02,ERROR\nweb01,ERROR\n"));
    let b = reg.open("b.csv".to_string(), dataset(b"x\n1\n"));
    assert_eq!((a, b), (1, 2));
    assert_eq!(reg.ids(), &[1, 2]);

    let (matched, total) = reg.search(a, "sev:ERROR").unwrap();
    assert_eq!((matched, total), (2, 3));
    assert_eq!(reg.get(a).unwrap().current_view.iter(), vec![1, 2]);
    assert!(matches!(reg.search(a, "(x"), Err(ToolError::Engine(NexusError::InvalidQuery(_)))));
    // A failed search keeps the previous view.
    assert_eq!(reg.get(a).unwrap().current_view.iter(), vec![1, 2]);
    assert_eq!(reg.reset_filter(a).unwrap(), 3);
    assert!(matches!(reg.get(a).unwrap().current_view, View::All(3)));

    assert!(reg.close(a));
    assert!(!reg.close(a));
    assert!(reg.get(a).is_none());
    assert!(matches!(reg.search(a, "x"), Err(ToolError::NoTimeline(1))));
    assert!(matches!(reg.reset_filter(9), Err(ToolError::NoTimeline(9))));
    assert_eq!(reg.ids(), &[2]);

    // Ids are never handed out twice.
    let c = reg.open("c.csv".to_string(), dataset(b"y\n2\n"));
    assert_eq!(c, 3);
    assert_eq!(reg.ids(), &[2, 3]);
    assert_eq!(reg.get(c).unwrap().path, "c.csv");
}

#[test]
fn distribution_ranks_by_count_then_label() {
    let ds = dataset(b"sev\nINFO\nERROR\nINFO\nWARN\nERROR\nINFO\nDEBUG\n");
    let view = ds.view_all();
    let tree = build(&ds, &view, &[0], &text_keys(&ds, &view, 0));
    let (items, distinct) = ranked_values(&tree, 20);
    assert_eq!(distinct, 4);
    assert_eq!(
        items,
        vec![
            ("INFO".to_string(), 3),
            ("ERROR".to_string(), 2),
            ("DEBUG".to_string(), 1),
            ("WARN".to_string(), 1),
        ]
    );
    let (top, _) = ranked_values(&tree, 1);
    assert_eq!(top, vec![("INFO".to_string(), 3)]);
}

#[test]
fn catalog_names_dispatch_to_their_tools() {
    let tools = catalog_tools();
    assert_eq!(tools.len(), 8);
    assert!(!tools.contains(&Tool::Unknown));
    for (i, &t) in tools.iter().enumerate() {
        assert_eq!(tool_kind(tool_name(t)), t);
        assert_eq!(tools.iter().filter(|&&u| u == t).count(), 1, "tool {i}");
    }
    assert_eq!(tool_name(Tool::Search), "search");
    assert_eq!(tool_name(Tool::ColumnDistribution), "column_distribution");
}
