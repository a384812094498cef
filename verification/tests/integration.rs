use nexus_core::export::{render, Format};
use nexus_core::sort::{sort_cells, sort_view, CellKey};
use nexus_core::{Dataset, ParserSchema, SortKey, View};

fn open(bytes: &[u8], schema: Option<ParserSchema>) -> Dataset {
    Dataset::open(bytes.to_vec(), schema).unwrap()
}

fn f64_sortable(f: f64) -> u64 {
    let bits = f.to_bits() as i64;
    let mask = ((bits >> 63) as u64) | 0x8000_0000_0000_0000;
    (bits as u64) ^ mask
}

fn number_of(text: &str) -> Option<u64> {
    match text.parse::<f64>() {
        Ok(f) if !f.is_nan() => Some(f64_sortable(f)),
        _ => None,
    }
}

fn sort(ds: &Dataset, view: &View, keys: &[SortKey]) -> View {
    let ids = view.iter();
    let cells = sort_cells(ds, &ids, keys);
    let computed: Vec<Vec<CellKey>> = cells
        .iter()
        .map(|row| {
            row.iter()
                .map(|t| {
                    let s: String = t.iter().collect();
                    CellKey::from_trimmed(t, number_of(&s))
                })
                .collect()
        })
        .collect();
    sort_view(view, keys, &computed)
}

#[test]
fn full_pipeline_csv() {
    let data: &[u8] = b"timestamp,host,message\r\n\
        2026-06-05T10:00:00,web01,\"login ok, session=1\"\r\n\
        2026-06-05T10:01:00,web02,login fail\x00 retry\r\n\
        2026-06-05T10:02:00,db\xE9,disk error\r\n\
        2026-06-05T10:03:00,web01,timeout\r\n";

    let mut ds = open(data, None);

    assert_eq!(ds.column_count(), 3);
    assert_eq!(ds.columns(), &["timestamp", "host", "message"]);
    assert_eq!(ds.row_count(), 4);

    assert_eq!(ds.cell(0, 2), "login ok, session=1");
    assert_eq!(ds.cell(1, 2), "login fail retry");
    assert_eq!(ds.cell(2, 1), "db\u{e9}");

    assert_eq!(ds.search("LOGIN").unwrap(), vec![0, 1]);
    assert_eq!(ds.search("login AND NOT fail").unwrap(), vec![0]);
    assert_eq!(ds.search("timeout OR disk").unwrap(), vec![2, 3]);
    assert_eq!(ds.search("host:web01").unwrap(), vec![0, 3]);
    assert_eq!(ds.search(r"/web\d+/").unwrap(), vec![0, 1, 3]);
    assert_eq!(ds.search("").unwrap(), vec![0, 1, 2, 3]);
}

#[test]
fn bodyfile_preset() {
    let data: &[u8] = b"0|/etc/passwd|2|r--|0|0|1024|100|200|300|400\n\
        0|/var/log/auth.log|3|rw-|0|0|4096|101|201|301|401\n";
    let mut ds = open(data, Some(ParserSchema::bodyfile()));

    assert_eq!(ds.column_count(), 11);
    assert_eq!(ds.column_name(1), Some("name"));
    assert_eq!(ds.row_count(), 2);
    assert_eq!(ds.cell(0, 1), "/etc/passwd");
    assert_eq!(ds.search("name:/auth/").unwrap(), vec![1]);
}

#[test]
fn view_addressing_is_stable() {
    let data: &[u8] = b"id,kind\n1,alpha\n2,beta\n3,alpha\n4,gamma\n";
    let mut ds = open(data, None);

    let view = ds.search_view("alpha").unwrap();
    assert_eq!(view.len(), 2);
    assert_eq!(ds.view_cell(&view, 0, 0), "1");
    assert_eq!(ds.view_cell(&view, 1, 0), "3");
    assert_eq!(ds.view_cell(&view, 99, 0), "");
}

#[test]
fn large_synthetic_file_scales() {
    let mut data = String::from("n,parity\n");
    for i in 0..100_000u32 {
        data.push_str(&format!("{i},{}\n", if i % 2 == 0 { "even" } else { "odd" }));
    }
    let mut ds = open(data.as_bytes(), None);

    assert_eq!(ds.row_count(), 100_000);
    let evens = ds.search("parity:even").unwrap();
    assert_eq!(evens.len(), 50_000);
    assert_eq!(evens[0], 0);
    assert_eq!(evens[1], 2);
}

#[test]
fn invalid_query_surfaces_error() {
    let mut ds = open(b"a,b\n1,2\n", None);
    assert!(ds.search("/(/").is_err());
    assert!(ds.search("(a OR b").is_err());
}

#[test]
fn multiline_quoted_records_full_pipeline() {
    let data: &[u8] = b"\xEF\xBB\xBFDevice,FirstSeen,Cmd,PIDs,LastSeen\n\
        web01,2026-06-10T14:48:57ZTUTC,\"run a,b\",\"18452:134256190834473343\n\
330:16480:134255987192750638\n\
72:134254749000664849\",2026-06-11T02:38:03ZTUTC\n\
        web02,2026-06-10T12:46:51ZTUTC,calc,14712:134255830517435285,2026-06-10T13:00:00ZTUTC\n";
    let mut ds = open(data, None);

    assert_eq!(ds.column_count(), 5);
    assert_eq!(ds.column_name(0), Some("Device"));
    assert_eq!(ds.row_count(), 2);

    let pids = ds.cell(0, 3);
    assert_eq!(pids.lines().count(), 3);
    assert!(pids.contains("330:16480:134255987192750638"));
    assert_eq!(ds.cell(0, 4), "2026-06-11T02:38:03ZTUTC");

    assert_eq!(ds.search("PIDs:134254749000664849").unwrap(), vec![0]);
    assert_eq!(ds.search("14712").unwrap(), vec![1]);

    let sorted = sort(&ds, &ds.view_all(), &[SortKey { col: 1, ascending: true }]);
    assert_eq!(ds.view_cell(&sorted, 0, 0), "web02");

    let out = render(&ds, &ds.view_all(), Format::Csv, &[]);
    let ds2 = Dataset::open(out, None).unwrap();
    assert_eq!(ds2.row_count(), 2);
    assert_eq!(ds2.cell(0, 3), pids);
    assert_eq!(ds2.cell(1, 0), "web02");
}
