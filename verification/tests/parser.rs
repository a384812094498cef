use nexus_core::parser::{count_fields, field_at, field_ranges, field_value};

fn fields(line: &[u8], delim: u8) -> Vec<String> {
    field_ranges(line, delim, b'"')
        .to_vec()
        .iter()
        .map(|&r| field_value(line, r, b'"'))
        .collect()
}

#[test]
fn plain_csv() {
    assert_eq!(fields(b"a,b,c", b','), vec!["a", "b", "c"]);
}

#[test]
fn empty_fields_preserved() {
    assert_eq!(fields(b"a,,c", b','), vec!["a", "", "c"]);
    assert_eq!(fields(b",,", b','), vec!["", "", ""]);
}

#[test]
fn quoted_delimiter() {
    assert_eq!(
        fields(b"\"a,b\",c", b','),
        vec!["a,b".to_string(), "c".to_string()]
    );
}

#[test]
fn escaped_quotes() {
    assert_eq!(
        fields(b"\"she said \"\"hi\"\"\",x", b','),
        vec!["she said \"hi\"".to_string(), "x".to_string()]
    );
}

#[test]
fn trailing_cr_trimmed() {
    assert_eq!(fields(b"a,b\r", b','), vec!["a", "b"]);
}

#[test]
fn pipe_bodyfile() {
    let line = b"0|/etc/passwd|12|r--|0|0|1024|100|200|300|400";
    assert_eq!(count_fields(line, b'|', b'"'), 11);
}

#[test]
fn multiline_quoted_field_value() {
    assert_eq!(
        fields(b"a,\"x\ny\",b", b','),
        vec!["a".to_string(), "x\ny".to_string(), "b".to_string()]
    );
}

#[test]
fn crlf_inside_quoted_field_is_preserved() {
    assert_eq!(
        fields(b"a,\"x\r\ny\"", b','),
        vec!["a".to_string(), "x\r\ny".to_string()]
    );
}

#[test]
fn mid_field_quote_is_literal() {
    assert_eq!(
        fields(b"x,ab\"cd,e", b','),
        vec!["x".to_string(), "ab\"cd".to_string(), "e".to_string()]
    );
}

#[test]
fn junk_after_closing_quote_is_literal() {
    assert_eq!(
        fields(b"\"a\"b,c", b','),
        vec!["\"a\"b".to_string(), "c".to_string()]
    );
}

#[test]
fn unterminated_quote_runs_to_record_end() {
    assert_eq!(
        fields(b"a,\"bc", b','),
        vec!["a".to_string(), "\"bc".to_string()]
    );
}

#[test]
fn field_at_agrees_with_field_ranges() {
    let lines: &[&[u8]] = &[
        b"a,b,c",
        b"a,\"x\ny\",b",
        b"x,ab\"cd,e",
        b"\"a\"b,c",
        b"a,\"he said \"\"hi\"\"\",x",
        b",,",
        b"\"unterminated",
        b"",
    ];
    for line in lines {
        let ranges = field_ranges(line, b',', b'"').to_vec();
        for (i, &r) in ranges.iter().enumerate() {
            assert_eq!(
                field_at(line, b',', b'"', i),
                Some(r),
                "line {:?} field {i}",
                String::from_utf8_lossy(line)
            );
        }
        assert_eq!(field_at(line, b',', b'"', ranges.len()), None);
    }
}

#[test]
fn field_ranges_len_matches_count_fields() {
    let line = b"a,\"b,c\",,d";
    let ranges = field_ranges(line, b',', b'"');
    assert_eq!(ranges.len(), 4);
    assert_eq!(count_fields(line, b',', b'"'), 4);
    assert_eq!(ranges.get(1), Some((2, 7)));
    assert_eq!(ranges.get(4), None);
}

#[test]
fn empty_line_has_one_empty_field() {
    assert_eq!(fields(b"", b','), vec![""]);
    assert_eq!(count_fields(b"", b',', b'"'), 1);
}

#[test]
fn fields_tile_the_record() {
    let line: &[u8] = b"a,\"b,\"\"c\"\"\",,d\"e,f";
    let ranges = field_ranges(line, b',', b'"').to_vec();
    assert_eq!(ranges.first().unwrap().0, 0);
    assert_eq!(ranges.last().unwrap().1, line.len());
    for w in ranges.windows(2) {
        assert!(w[0].0 <= w[0].1);
        assert_eq!(line[w[0].1], b',');
        assert_eq!(w[1].0, w[0].1 + 1);
    }
    assert_eq!(ranges, vec![(0, 1), (2, 11), (12, 12), (13, 16), (17, 18)]);
}

#[test]
fn field_count_bounded_by_delimiters() {
    let quoted: &[u8] = b"\"a,b\",c";
    assert_eq!(count_fields(quoted, b',', b'"'), 2);
    assert!(count_fields(quoted, b',', b'"') <= 1 + quoted.iter().filter(|&&b| b == b',').count());
    let plain: &[u8] = b"x|y||z";
    assert_eq!(count_fields(plain, b'|', b'"'), 1 + plain.iter().filter(|&&b| b == b'|').count());
}
