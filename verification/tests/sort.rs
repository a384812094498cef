use nexus_core::sort::{cell_keys, sort_by_cells, sort_cells, sort_view, CellKey};
use nexus_core::{Dataset, ParserSchema, SortKey, View};

fn dataset(bytes: &[u8]) -> Dataset {
    Dataset::open(bytes.to_vec(), Some(ParserSchema::csv())).unwrap()
}

fn f64_sortable(f: f64) -> u64 {
    let bits = f.to_bits() as i64;
    let mask = ((bits >> 63) as u64) | 0x8000_0000_0000_0000;
    (bits as u64) ^ mask
}

fn number_of(text: &str) -> Option<u64> {
    match text.parse::<f64>() {
        Ok(f) if !f.is_nan() => Some(f64_sortable(f)),
        _ => None,
    }
}

fn sort(ds: &Dataset, view: &View, keys: &[SortKey]) -> View {
    let ids = view.iter();
    let cells = sort_cells(ds, &ids, keys);
    let computed: Vec<Vec<CellKey>> = cells
        .iter()
        .map(|row| {
            row.iter()
                .map(|t| {
                    let s: String = t.iter().collect();
                    CellKey::from_trimmed(t, number_of(&s))
                })
                .collect()
        })
        .collect();
    sort_view(view, keys, &computed)
}

fn key(col: usize, ascending: bool) -> SortKey {
    SortKey { col, ascending }
}

#[test]
fn numeric_not_lexicographic() {
    let ds = dataset(b"n\n10\n2\n1\n100\n");
    let v = sort(&ds, &ds.view_all(), &[key(0, true)]);
    let got: Vec<String> = v.iter().iter().map(|&r| ds.cell(r as usize, 0)).collect();
    assert_eq!(got, vec!["1", "2", "10", "100"]);
}

#[test]
fn descending() {
    let ds = dataset(b"n\n1\n3\n2\n");
    let v = sort(&ds, &ds.view_all(), &[key(0, false)]);
    let got: Vec<String> = v.iter().iter().map(|&r| ds.cell(r as usize, 0)).collect();
    assert_eq!(got, vec!["3", "2", "1"]);
}

#[test]
fn multi_key_with_stable_tiebreak() {
    let ds = dataset(b"group,value\nb,1\na,5\nb,9\na,5\na,2\n");
    let v = sort(&ds, &ds.view_all(), &[key(0, true), key(1, false)]);
    let rows: Vec<(String, String)> = v
        .iter()
        .iter()
        .map(|&r| (ds.cell(r as usize, 0), ds.cell(r as usize, 1)))
        .collect();
    assert_eq!(
        rows,
        vec![
            ("a".into(), "5".into()),
            ("a".into(), "5".into()),
            ("a".into(), "2".into()),
            ("b".into(), "9".into()),
            ("b".into(), "1".into()),
        ]
    );
}

#[test]
fn text_case_insensitive() {
    let ds = dataset(b"name\nBravo\nalpha\nCharlie\n");
    let v = sort(&ds, &ds.view_all(), &[key(0, true)]);
    let got: Vec<String> = v.iter().iter().map(|&r| ds.cell(r as usize, 0)).collect();
    assert_eq!(got, vec!["alpha", "Bravo", "Charlie"]);
}

#[test]
fn empty_keys_is_identity() {
    let ds = dataset(b"n\n3\n1\n2\n");
    let v = sort(&ds, &ds.view_all(), &[]);
    assert_eq!(v.len(), 3);
    assert!(matches!(v, View::All(3)));
}

#[test]
fn numbers_sort_before_text() {
    let ds = dataset(b"v\nzeta\n 7 \n-1.5\nAlpha\n\n");
    let v = sort(&ds, &ds.view_all(), &[key(0, true)]);
    let got: Vec<String> = v.iter().iter().map(|&r| ds.cell(r as usize, 0)).collect();
    // -1.5 < 7 (numbers), then "" < "alpha" < "zeta" (text).
    assert_eq!(got, vec!["-1.5", " 7 ", "", "Alpha", "zeta"]);
}

#[test]
fn equal_keys_keep_view_order() {
    let mut ds = dataset(b"k,id\nx,1\ny,2\nx,3\ny,4\nx,5\n");
    // A filtered view in reverse order: equal keys stay in that order.
    let view = View::Filtered(vec![4, 3, 2, 1, 0]);
    let v = sort(&ds, &view, &[key(0, true)]);
    assert_eq!(v.iter(), vec![4, 2, 0, 3, 1]);
    let f = ds.search_view("y").unwrap();
    let w = sort(&ds, &f, &[key(1, false)]);
    assert_eq!(w.iter(), vec![3, 1]);
}

#[test]
fn cell_key_from_trimmed() {
    let t: Vec<char> = "AbC".chars().collect();
    assert!(matches!(CellKey::from_trimmed(&t, None), CellKey::Text(ref v) if v.iter().collect::<String>() == "abc"));
    assert!(matches!(CellKey::from_trimmed(&t, Some(9)), CellKey::Num(9)));
    assert!(matches!(CellKey::from_trimmed(&[], Some(9)), CellKey::Text(ref v) if v.is_empty()));
}

#[test]
fn sort_cells_are_trimmed() {
    let ds = dataset(b"a,b\n  x ,1\n");
    let cells = sort_cells(&ds, &vec![0, 5], &[key(0, true), key(1, true)]);
    assert_eq!(cells[0][0], vec!['x']);
    assert_eq!(cells[0][1], vec!['1']);
    assert!(cells[1][0].is_empty());
}

fn numbers(ds: &Dataset, view: &View, keys: &[SortKey]) -> Vec<Vec<Option<u64>>> {
    let cells = sort_cells(ds, &view.iter(), keys);
    cells
        .iter()
        .map(|row| {
            row.iter()
                .map(|t| {
                    let s: String = t.iter().collect();
                    number_of(&s)
                })
                .collect()
        })
        .collect()
}

#[test]
fn cell_keys_follow_the_cells() {
    let ds = dataset(b"n,name\n 7 ,Bob\nx,alice\n");
    let keys = [key(0, true), key(1, true)];
    let ids = ds.view_all().iter();
    let nums = numbers(&ds, &ds.view_all(), &keys);
    let got = cell_keys(&ds, &ids, &keys, &nums);
    assert_eq!(got.len(), 2);
    assert!(matches!(got[0][0], CellKey::Num(n) if Some(n) == number_of("7")));
    assert!(matches!(&got[0][1], CellKey::Text(t) if t.iter().collect::<String>() == "bob"));
    assert!(matches!(&got[1][0], CellKey::Text(t) if t.iter().collect::<String>() == "x"));
    assert!(matches!(&got[1][1], CellKey::Text(t) if t.iter().collect::<String>() == "alice"));
}

#[test]
fn sort_by_cells_orders_by_cell_values() {
    let ds = dataset(b"n,tag\n10,b\nbeta,a\n2,c\nAlpha,d\n2,a\n");
    let keys = [key(0, true), key(1, false)];
    let view = ds.view_all();
    let nums = numbers(&ds, &view, &keys);
    let v = sort_by_cells(&ds, &view, &keys, &nums);
    let got: Vec<String> = v
        .iter()
        .iter()
        .map(|&r| format!("{}:{}", ds.cell(r as usize, 0), ds.cell(r as usize, 1)))
        .collect();
    assert_eq!(got, vec!["2:c", "2:a", "10:b", "Alpha:d", "beta:a"]);
    assert_eq!(v.iter(), sort(&ds, &view, &keys).iter());
}

#[test]
fn sort_by_cells_without_keys_keeps_the_view() {
    let ds = dataset(b"n\n3\n1\n2\n");
    let view = ds.view_all();
    let v = sort_by_cells(&ds, &view, &[], &Vec::new());
    assert_eq!(v.iter(), vec![0, 1, 2]);
}
