use nexus_core::parser::{field_ranges, field_value};
use nexus_core::export::{
    render, selected_columns, write_delimited_field, write_html_escaped, write_json_string, Format,
};
use nexus_core::{Dataset, ParserSchema, View};

fn dataset(bytes: &[u8]) -> Dataset {
    Dataset::open(bytes.to_vec(), Some(ParserSchema::csv())).unwrap()
}

fn export_cols(ds: &Dataset, view: &View, format: Format, cols: &[usize]) -> String {
    String::from_utf8(render(ds, view, format, cols)).unwrap()
}

fn export_string(ds: &Dataset, view: &View, format: Format) -> String {
    export_cols(ds, view, format, &[])
}

#[test]
fn csv_requotes_fields_with_commas() {
    let ds = dataset(b"a,b\n1,hello\n2,\"has,comma\"\n");
    let s = export_string(&ds, &ds.view_all(), Format::Csv);
    assert_eq!(s, "a,b\n1,hello\n2,\"has,comma\"\n");
}

#[test]
fn csv_escapes_embedded_quotes() {
    let ds = dataset(b"a\n\"she said \"\"hi\"\"\"\n");
    let s = export_string(&ds, &ds.view_all(), Format::Csv);
    assert_eq!(s, "a\n\"she said \"\"hi\"\"\"\n");
}

#[test]
fn tsv_uses_tabs() {
    let ds = dataset(b"a,b\n1,x\n");
    assert_eq!(export_string(&ds, &ds.view_all(), Format::Tsv), "a\tb\n1\tx\n");
}

#[test]
fn json_escapes_values() {
    let ds = dataset(b"k,v\n1,\"quote\"\"here\"\n");
    let s = export_string(&ds, &ds.view_all(), Format::Json);
    assert!(s.contains("\"k\": \"1\""));
    assert!(s.contains("\"v\": \"quote\\\"here\""));
}

#[test]
fn html_escapes_markup() {
    let ds = dataset(b"c\n<script>\n");
    let s = export_string(&ds, &ds.view_all(), Format::Html);
    assert!(s.contains("<th>c</th>"));
    assert!(s.contains("<td>&lt;script&gt;</td>"));
}

#[test]
fn exports_only_view_rows() {
    let mut ds = dataset(b"n\n1\n2\n3\n");
    let view = ds.search_view("2").unwrap();
    assert_eq!(export_string(&ds, &view, Format::Csv), "n\n2\n");
}

#[test]
fn exports_only_selected_columns() {
    let ds = dataset(b"a,b,c\n1,2,3\n4,5,6\n");
    assert_eq!(export_cols(&ds, &ds.view_all(), Format::Csv, &[0, 2]), "a,c\n1,3\n4,6\n");
    assert_eq!(export_cols(&ds, &ds.view_all(), Format::Tsv, &[2, 0]), "c\ta\n3\t1\n6\t4\n");
}

#[test]
fn format_codes() {
    assert_eq!(Format::from_code(0), Some(Format::Csv));
    assert_eq!(Format::from_code(3), Some(Format::Html));
    assert_eq!(Format::from_code(9), None);
}

#[test]
fn format_codes_all() {
    assert_eq!(Format::from_code(1), Some(Format::Tsv));
    assert_eq!(Format::from_code(2), Some(Format::Json));
    assert_eq!(Format::from_code(4), None);
}

#[test]
fn json_whole_document() {
    let ds = dataset(b"k,v\n1,a\n2,b\n");
    assert_eq!(
        export_string(&ds, &ds.view_all(), Format::Json),
        "[\n  {\"k\": \"1\", \"v\": \"a\"},\n  {\"k\": \"2\", \"v\": \"b\"}\n]\n"
    );
}

#[test]
fn html_whole_document() {
    let ds = dataset(b"a\nx&y\n");
    assert_eq!(
        export_string(&ds, &ds.view_all(), Format::Html),
        "<table>\n<thead><tr><th>a</th></tr></thead>\n<tbody>\n<tr><td>x&amp;y</td></tr>\n</tbody>\n</table>\n"
    );
}

#[test]
fn unknown_selected_columns_are_dropped() {
    let ds = dataset(b"a,b\n1,2\n");
    assert_eq!(selected_columns(&ds, &[5, 1, 9]), vec![1]);
    assert_eq!(selected_columns(&ds, &[]), vec![0, 1]);
    assert_eq!(export_cols(&ds, &ds.view_all(), Format::Csv, &[5, 1]), "b\n2\n");
}

#[test]
fn delimited_field_quoting_rules() {
    let mut out = Vec::new();
    write_delimited_field(&mut out, "plain", b',');
    out.push(b'|');
    write_delimited_field(&mut out, "a\"b", b',');
    out.push(b'|');
    write_delimited_field(&mut out, "line\nbreak", b'\t');
    out.push(b'|');
    write_delimited_field(&mut out, "x,y", b'\t');
    assert_eq!(String::from_utf8(out).unwrap(), "plain|\"a\"\"b\"|\"line\nbreak\"|x,y");
}

#[test]
fn json_string_escapes_control_characters() {
    let mut out = Vec::new();
    write_json_string(&mut out, "a\"b\\c\nd\re\tf\u{1}g\u{1f}\u{e9}");
    assert_eq!(
        String::from_utf8(out).unwrap(),
        "\"a\\\"b\\\\c\\nd\\re\\tf\\u0001g\\u001f\u{e9}\""
    );
}

#[test]
fn html_escapes_all_markup_characters() {
    let mut out = Vec::new();
    write_html_escaped(&mut out, "<a href='x'>\"&\"</a>");
    assert_eq!(
        String::from_utf8(out).unwrap(),
        "&lt;a href=&#39;x&#39;&gt;&quot;&amp;&quot;&lt;/a&gt;"
    );
}

#[test]
fn empty_view_json_and_csv() {
    let mut ds = dataset(b"a\n1\n");
    let none = ds.search_view("zzz").unwrap();
    assert_eq!(export_string(&ds, &none, Format::Json), "[\n\n]\n");
    assert_eq!(export_string(&ds, &none, Format::Csv), "a\n");
}

#[test]
fn written_record_reads_back() {
    let values = ["plain", "has,comma", "say \"hi\"", "multi\nline", "", "trailing\r"];
    let mut line = Vec::new();
    for (i, v) in values.iter().enumerate() {
        if i > 0 {
            line.push(b',');
        }
        write_delimited_field(&mut line, v, b',');
    }
    let read: Vec<String> = field_ranges(&line, b',', b'"')
        .to_vec()
        .iter()
        .map(|&r| field_value(&line, r, b'"'))
        .collect();
    assert_eq!(read, values.iter().map(|v| v.to_string()).collect::<Vec<_>>());
}

#[test]
fn written_field_reads_back() {
    for value in ["plain", "with,comma", "say \"hi\"", "two\nlines", "cr\r", "", "é ü"] {
        let mut out = Vec::new();
        write_delimited_field(&mut out, value, b',');
        let ranges = field_ranges(&out, b',', b'"').to_vec();
        assert_eq!(ranges, vec![(0, out.len())], "{value:?}");
        assert_eq!(field_value(&out, (0, out.len()), b'"'), value, "{value:?}");
    }
    let mut out = Vec::new();
    write_delimited_field(&mut out, "plain", b',');
    assert_eq!(out, b"plain");
}
