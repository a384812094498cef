use nexus_core::parser::field_ranges;
use nexus_core::{Dataset, NexusError, ParserSchema, Query, View};

fn dataset_from(bytes: &[u8], schema: Option<ParserSchema>) -> Dataset {
    Dataset::open(bytes.to_vec(), schema).unwrap()
}

#[test]
fn header_and_rows() {
    let ds = dataset_from(b"host,event\nweb01,login\nweb02,logout\n", None);
    assert_eq!(ds.column_count(), 2);
    assert_eq!(ds.column_name(0), Some("host"));
    assert_eq!(ds.row_count(), 2);
    assert_eq!(ds.cell(0, 0), "web01");
    assert_eq!(ds.cell(1, 1), "logout");
}

#[test]
fn no_header_generates_columns() {
    let schema = ParserSchema { has_header: false, ..ParserSchema::csv() };
    let ds = dataset_from(b"a,b,c\nd,e,f\n", Some(schema));
    assert_eq!(ds.column_count(), 3);
    assert_eq!(ds.column_name(0), Some("Column 1"));
    assert_eq!(ds.row_count(), 2);
}

#[test]
fn search_global_and_scoped() {
    let data = b"host,event\nweb01,login ok\nweb02,login fail\ndb01,logout\n";
    let mut ds = dataset_from(data, None);
    assert_eq!(ds.search("login").unwrap(), vec![0, 1]);
    assert_eq!(ds.search("host:web02").unwrap(), vec![1]);
    assert_eq!(ds.search("login AND NOT fail").unwrap(), vec![0]);
    assert_eq!(ds.search("").unwrap(), vec![0, 1, 2]);
}

#[test]
fn view_cell_through_filter() {
    let mut ds = dataset_from(b"host,event\nweb01,a\nweb02,b\n", None);
    let view = ds.search_view("web02").unwrap();
    assert_eq!(view.len(), 1);
    assert_eq!(ds.view_cell(&view, 0, 0), "web02");
}

#[test]
fn tags_persist_across_filtering() {
    let mut ds = dataset_from(b"host,event\nweb01,a\nweb02,b\nweb01,c\n", None);
    ds.set_tag(0, true);
    ds.set_tag(2, true);
    assert_eq!(ds.tagged_count(), 2);

    let filtered = ds.search_view("web01").unwrap();
    assert!(ds.is_tagged(0));
    assert!(ds.is_tagged(2));
    assert!(!ds.is_tagged(1));

    assert_eq!(ds.tagged_view().len(), 2);
    assert_eq!(ds.intersect_tags(&filtered).len(), 2);

    ds.set_tag(0, false);
    assert_eq!(ds.tagged_count(), 1);
}

#[test]
fn malformed_lines_do_not_panic() {
    let data = b"host,event\nweb01,ok\x00fine\nweb\xE9,short\n,\n";
    let ds = dataset_from(data, None);
    assert_eq!(ds.row_count(), 3);
    assert_eq!(ds.cell(0, 1), "okfine");
    assert!(!ds.cell(1, 0).is_empty());
    assert_eq!(ds.cell(2, 0), "");
}

#[test]
fn empty_input_is_an_error() {
    assert!(matches!(Dataset::open(Vec::new(), None), Err(NexusError::EmptyFile)));
}

#[test]
fn header_beyond_input_has_no_columns() {
    let schema = ParserSchema { skip_lines: 5, ..ParserSchema::csv() };
    assert!(matches!(Dataset::open(b"a,b\n1,2\n".to_vec(), Some(schema)), Err(NexusError::NoColumns)));
}

#[test]
fn explicit_columns_win_over_header() {
    let schema = ParserSchema {
        columns: vec!["x".to_string(), "y".to_string()],
        ..ParserSchema::csv()
    };
    let ds = dataset_from(b"a,b\n1,2\n", Some(schema));
    assert_eq!(ds.columns(), &["x", "y"]);
    // The header row is still skipped.
    assert_eq!(ds.row_count(), 1);
    assert_eq!(ds.cell(0, 1), "2");
}

#[test]
fn blank_header_names_are_generated() {
    let ds = dataset_from(b"a, ,\n1,2,3\n", None);
    assert_eq!(ds.columns(), &["a", "Column 2", "Column 3"]);
}

#[test]
fn skip_lines_and_sniffed_delimiter() {
    let schema = ParserSchema { skip_lines: 1, delimiter: "pipe".to_string(), ..ParserSchema::default() };
    let ds = dataset_from(b"banner line\nh1|h2\nv1|v2\n", Some(schema));
    assert_eq!(ds.columns(), &["h1", "h2"]);
    assert_eq!(ds.row_count(), 1);
    assert_eq!(ds.cell(0, 1), "v2");
    let sniffed = dataset_from(b"a\tb\n1\t2\n", None);
    assert_eq!(sniffed.delimiter(), b'\t');
    assert_eq!(sniffed.cell(0, 1), "2");
}

#[test]
fn out_of_range_access_is_empty() {
    let ds = dataset_from(b"a,b\n1,2\n", None);
    assert_eq!(ds.cell(5, 0), "");
    assert_eq!(ds.cell(0, 9), "");
    assert_eq!(ds.line_bytes(1), None);
    assert_eq!(ds.line_bytes(usize::MAX), None);
    assert_eq!(ds.raw_line(3), "");
    assert_eq!(ds.row_values(7), vec!["".to_string(), "".to_string()]);
}

#[test]
fn row_values_are_rectangular() {
    let ds = dataset_from(b"a,b,c\n1\n1,2,3,4\n", None);
    assert_eq!(ds.row_values(0), vec!["1".to_string(), "".to_string(), "".to_string()]);
    assert_eq!(ds.row_values(1), vec!["1".to_string(), "2".to_string(), "3".to_string()]);
}

#[test]
fn raw_line_keeps_delimiters() {
    let ds = dataset_from(b"a,b\r\n\"x,y\",z\r\n", None);
    assert_eq!(ds.raw_line(0), "\"x,y\",z");
    assert_eq!(ds.line_bytes(0), Some(&b"\"x,y\",z"[..]));
}

#[test]
fn views_address_rows() {
    let mut ds = dataset_from(b"n\n1\n2\n3\n", None);
    let all = ds.view_all();
    assert_eq!(all.len(), 3);
    assert_eq!(ds.view_row_id(&all, 2), Some(2));
    assert_eq!(ds.view_row_id(&all, 3), None);
    let v = ds.search_view("3").unwrap();
    assert!(matches!(v, View::Filtered(_)));
    assert_eq!(ds.view_row_id(&v, 0), Some(2));
    assert_eq!(ds.view_cell(&v, 0, 0), "3");
}

#[test]
fn clear_tags_and_tagged_view() {
    let mut ds = dataset_from(b"n\n1\n2\n3\n", None);
    assert_eq!(ds.tagged_count(), 0);
    assert_eq!(ds.tagged_view().len(), 0);
    ds.set_tag(2, true);
    ds.set_tag(9, true);
    assert_eq!(ds.tagged_view().iter(), vec![2]);
    ds.clear_tags();
    assert_eq!(ds.tagged_count(), 0);
    assert!(!ds.is_tagged(2));
}

#[test]
fn search_leaves_tags_alone() {
    let mut ds = dataset_from(b"host\nweb01\nweb02\n", None);
    ds.set_tag(1, true);
    let _ = ds.search("web").unwrap();
    let _ = ds.search("web01").unwrap();
    assert!(ds.is_tagged(1));
    assert_eq!(ds.tagged_count(), 1);
}

#[test]
fn invalid_query_reports_invalid_query() {
    let mut ds = dataset_from(b"a\n1\n", None);
    assert!(matches!(ds.search("(x"), Err(NexusError::InvalidQuery(_))));
    assert!(matches!(ds.search_view("/[/"), Err(NexusError::InvalidQuery(_))));
}

#[test]
fn bom_is_stripped_from_first_column() {
    let ds = dataset_from(b"\xEF\xBB\xBFname,v\nx,1\n", None);
    assert_eq!(ds.column_name(0), Some("name"));
    assert_eq!(ds.cell(0, 0), "x");
}

#[test]
fn view_row_cells_joins_with_separator() {
    let ds = dataset_from(b"a,b,c\n1,2,3\n4,5,6\n", None);
    let all = ds.view_all();
    assert_eq!(ds.view_row_cells(&all, 0), "1\u{1}2\u{1}3");
    assert_eq!(ds.view_row_cells(&all, 1), "4\u{1}5\u{1}6");
    assert_eq!(ds.view_row_cells(&all, 2), "");
}

#[test]
fn view_row_cells_replaces_separator_in_values() {
    let ds = dataset_from(b"a,b\nx\x01y,z\n", None);
    assert_eq!(ds.view_row_cells(&ds.view_all(), 0), "x y\u{1}z");
}

#[test]
fn input_fits_small_inputs() {
    assert!(Dataset::input_fits(0));
    assert!(Dataset::input_fits(1 << 20));
}

#[test]
fn search_results_ascending_and_exact() {
    let mut ds = dataset_from(
        b"host,msg\nweb01,disk full\ndb01,ok\nweb02,DISK full again\nweb01,fine\n",
        None,
    );
    for query in ["disk", "host:web01", "NOT ok", "/w.b0[12]/ AND full", "zzz"] {
        let ids = ds.search(query).unwrap();
        assert!(ids.windows(2).all(|w| w[0] < w[1]), "{query}");
        let q = Query::compile(query, ds.columns()).unwrap();
        for r in 0..ds.row_count() {
            let line = ds.line_bytes(r).unwrap();
            let fields = field_ranges(line, ds.delimiter(), b'"');
            assert_eq!(ids.contains(&(r as u32)), q.matches(line, Some(&fields), b'"'), "{query} row {r}");
        }
    }
}
