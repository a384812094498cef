use nexus_core::group::{build, build_by_cells};
use nexus_core::sort::{sort_cells, CellKey};
use nexus_core::{Dataset, GroupTree, Item, ParserSchema, SortKey, View};

fn dataset(bytes: &[u8]) -> Dataset {
    Dataset::open(bytes.to_vec(), Some(ParserSchema::csv())).unwrap()
}

fn f64_sortable(f: f64) -> u64 {
    let bits = f.to_bits() as i64;
    let mask = ((bits >> 63) as u64) | 0x8000_0000_0000_0000;
    (bits as u64) ^ mask
}

fn number_of(text: &str) -> Option<u64> {
    match text.parse::<f64>() {
        Ok(f) if !f.is_nan() => Some(f64_sortable(f)),
        _ => None,
    }
}

fn group(ds: &Dataset, view: &View, cols: &[usize]) -> GroupTree {
    let ids = view.iter();
    let keys: Vec<SortKey> = cols.iter().map(|&c| SortKey { col: c, ascending: true }).collect();
    let cells = sort_cells(ds, &ids, &keys);
    let computed: Vec<Vec<CellKey>> = cells
        .iter()
        .map(|row| {
            row.iter()
                .map(|t| {
                    let s: String = t.iter().collect();
                    CellKey::from_trimmed(t, number_of(&s))
                })
                .collect()
        })
        .collect();
    build(ds, view, cols, &computed)
}

#[test]
fn single_level_grouping() {
    let ds = dataset(b"sev,msg\nINFO,a\nERROR,b\nINFO,c\nERROR,d\nINFO,e\n");
    let tree = group(&ds, &ds.view_all(), &[0]);
    assert_eq!(tree.root_count(), 2);

    let g0 = tree.root_child(0).unwrap();
    assert_eq!(tree.label(g0), "ERROR");
    assert_eq!(tree.count(g0), 2);
    assert_eq!(tree.child_count(g0), 2);

    let g1 = tree.root_child(1).unwrap();
    assert_eq!(tree.label(g1), "INFO");
    assert_eq!(tree.count(g1), 3);

    let row = tree.child(g0, 0).unwrap();
    assert!(!tree.is_group(row));
    assert!(tree.row(row).is_some());
}

#[test]
fn two_level_grouping() {
    let ds = dataset(b"host,sev,msg\nweb01,INFO,a\nweb01,ERROR,b\nweb01,INFO,c\nweb02,ERROR,d\n");
    let tree = group(&ds, &ds.view_all(), &[0, 1]);
    assert_eq!(tree.root_count(), 2);

    let web01 = tree.root_child(0).unwrap();
    assert_eq!(tree.label(web01), "web01");
    assert_eq!(tree.count(web01), 3);
    assert_eq!(tree.child_count(web01), 2);
    let err = tree.child(web01, 0).unwrap();
    assert!(tree.is_group(err));
    assert_eq!(tree.label(err), "ERROR");
    assert_eq!(tree.count(err), 1);
    let info = tree.child(web01, 1).unwrap();
    assert_eq!(tree.label(info), "INFO");
    assert_eq!(tree.count(info), 2);
    assert_eq!(tree.child_count(info), 2);
}

#[test]
fn item_encoding_roundtrip() {
    assert_eq!(Item::decode(Item::Group(42).encode()), Item::Group(42));
    assert_eq!(Item::decode(Item::Row(0).encode()), Item::Row(0));
    assert_eq!(Item::decode(Item::Row(99).encode()), Item::Row(99));
}

#[test]
fn item_encoding_values() {
    assert_eq!(Item::Group(7).encode(), 7);
    assert_eq!(Item::Row(0).encode(), -1);
    assert_eq!(Item::Row(u32::MAX).encode(), -4_294_967_296);
    assert_eq!(Item::decode(-5), Item::Row(4));
    assert_eq!(Item::decode(i64::MIN), Item::Row(u32::MAX));
}

#[test]
fn rows_of_a_group_are_its_rows() {
    let ds = dataset(b"k\nb\na\nb\na\n");
    let tree = group(&ds, &ds.view_all(), &[0]);
    let a = tree.root_child(0).unwrap();
    let rows: Vec<u32> = (0..tree.child_count(a)).map(|i| tree.row(tree.child(a, i).unwrap()).unwrap()).collect();
    assert_eq!(rows, vec![1, 3]);
    assert_eq!(tree.child(a, 2), None);
    assert_eq!(tree.child(Item::Row(1), 0), None);
    assert_eq!(tree.count(Item::Row(1)), 1);
    assert_eq!(tree.label(Item::Row(1)), "");
    assert_eq!(tree.child_count(Item::Group(99)), 0);
    assert_eq!(tree.count(Item::Group(99)), 0);
    assert!(!tree.is_group(Item::Group(99)));
}

#[test]
fn root_counts_add_up_to_the_view() {
    let ds = dataset(b"k,v\nx,1\ny,2\nx,3\nz,4\ny,5\nx,6\n");
    let tree = group(&ds, &ds.view_all(), &[0, 1]);
    let total: u64 = (0..tree.root_count()).map(|i| tree.count(tree.root_child(i).unwrap())).sum();
    assert_eq!(total, 6);
    assert_eq!(tree.root_child(tree.root_count()), None);
}

#[test]
fn no_columns_or_empty_view_gives_no_groups() {
    let ds = dataset(b"k\na\n");
    let tree = group(&ds, &ds.view_all(), &[]);
    assert_eq!(tree.root_count(), 0);
    let empty = group(&ds, &View::Filtered(Vec::new()), &[0]);
    assert_eq!(empty.root_count(), 0);
}

#[test]
fn numeric_groups_in_numeric_order() {
    let ds = dataset(b"n\n10\n9\n10\n100\n");
    let tree = group(&ds, &ds.view_all(), &[0]);
    let labels: Vec<String> = (0..tree.root_count()).map(|i| tree.label(tree.root_child(i).unwrap()).to_string()).collect();
    assert_eq!(labels, vec!["9", "10", "100"]);
}

#[test]
fn build_by_cells_groups_cell_values() {
    let ds = dataset(b"host,n\nweb02,1\nweb01,2\nWEB01,3\nweb02,4\n");
    let view = ds.view_all();
    let keys = [SortKey { col: 0, ascending: true }];
    let cells = sort_cells(&ds, &view.iter(), &keys);
    let nums: Vec<Vec<Option<u64>>> = cells
        .iter()
        .map(|row| row.iter().map(|t| number_of(&t.iter().collect::<String>())).collect())
        .collect();
    let tree = build_by_cells(&ds, &view, &[0], &nums);
    assert_eq!(tree.root_count(), 2);
    let first = tree.root_child(0).unwrap();
    assert_eq!(tree.label(first), "web01");
    assert_eq!(tree.count(first), 2);
    let second = tree.root_child(1).unwrap();
    assert_eq!(tree.label(second), "web02");
    assert_eq!(tree.count(second), 2);
    let plain = group(&ds, &view, &[0]);
    assert_eq!(plain.root_count(), tree.root_count());
}
