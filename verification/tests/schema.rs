use nexus_core::schema::{byte_to_delimiter_name, schema_format, sniff, SchemaFormat};
use nexus_core::ParserSchema;

#[test]
fn delimiter_resolution() {
    assert_eq!(ParserSchema::csv().delimiter_byte(), b',');
    assert_eq!(ParserSchema::tsv().delimiter_byte(), b'\t');
    assert_eq!(ParserSchema::psv().delimiter_byte(), b'|');
    assert_eq!(ParserSchema::bodyfile().delimiter_byte(), b'|');
}

#[test]
fn sniff_detects_pipe_and_tab() {
    assert_eq!(sniff(b"a|b|c\n1|2|3").delimiter_byte(), b'|');
    assert_eq!(sniff(b"a\tb\tc\n1\t2\t3").delimiter_byte(), b'\t');
    assert_eq!(sniff(b"a,b,c\n1,2,3").delimiter_byte(), b',');
}

#[test]
fn bodyfile_preset_shape() {
    let s = ParserSchema::bodyfile();
    assert_eq!(s.columns.len(), 11);
    assert!(!s.has_header);
}

#[test]
fn delimiter_names_round_trip() {
    for b in [b',', b'\t', b'|', b';', b' '] {
        let s = ParserSchema {
            delimiter: byte_to_delimiter_name(b).to_string(),
            ..ParserSchema::default()
        };
        assert_eq!(s.delimiter_byte(), b);
    }
}

#[test]
fn unknown_delimiter_uses_first_byte_or_comma() {
    let s = ParserSchema { delimiter: "#x".to_string(), ..ParserSchema::default() };
    assert_eq!(s.delimiter_byte(), b'#');
    let e = ParserSchema { delimiter: String::new(), ..ParserSchema::default() };
    assert_eq!(e.delimiter_byte(), b',');
    let t = ParserSchema { delimiter: "\\t".to_string(), ..ParserSchema::default() };
    assert_eq!(t.delimiter_byte(), b'\t');
}

#[test]
fn non_ascii_quote_falls_back_to_double_quote() {
    let s = ParserSchema { quote: '\u{ab}', ..ParserSchema::default() };
    assert_eq!(s.quote_byte(), b'"');
    let t = ParserSchema { quote: '\'', ..ParserSchema::default() };
    assert_eq!(t.quote_byte(), b'\'');
}

#[test]
fn presets_by_name() {
    assert_eq!(ParserSchema::preset("TSV").unwrap().delimiter_byte(), b'\t');
    assert_eq!(ParserSchema::preset("bodyfile").unwrap().columns.len(), 11);
    assert!(ParserSchema::preset("nope").is_none());
}

#[test]
fn default_schema_is_comma_with_header() {
    let s = ParserSchema::default();
    assert_eq!(s.delimiter, "comma");
    assert!(s.has_header);
    assert_eq!(s.skip_lines, 0);
    assert!(s.columns.is_empty());
}

#[test]
fn sniff_ties_and_empty_input() {
    // No candidate delimiter at all: comma.
    assert_eq!(sniff(b"").delimiter_byte(), b',');
    // Equal counts: the later candidate in the order comma, tab, pipe, semicolon wins.
    assert_eq!(sniff(b"a,b;c").delimiter_byte(), b';');
}

#[test]
fn schema_document_kind() {
    assert!(matches!(schema_format("  {\"delimiter\":\"pipe\"}"), SchemaFormat::Json));
    assert!(matches!(schema_format("delimiter: tab\n"), SchemaFormat::Yaml));
}
