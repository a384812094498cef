use nexus_core::index::{LineIndex, MAX_QUOTED_SPAN_BYTES};

const UTF8_BOM: &[u8] = b"\xEF\xBB\xBF";

fn line_str(idx: &LineIndex, data: &[u8], i: usize) -> String {
    let (s, e) = idx.line_span(i).unwrap();
    let mut slice = &data[s..e];
    if slice.last() == Some(&b'\n') {
        slice = &slice[..slice.len() - 1];
    }
    if slice.last() == Some(&b'\r') {
        slice = &slice[..slice.len() - 1];
    }
    String::from_utf8_lossy(slice).into_owned()
}

fn starts_of(idx: &LineIndex) -> Vec<u64> {
    let mut out = Vec::new();
    for i in 0..idx.line_count() {
        let (s, e) = idx.line_span(i).unwrap();
        if i == 0 {
            out.push(s as u64);
        }
        out.push(e as u64);
    }
    out
}

#[test]
fn trailing_newline() {
    let data: &[u8] = b"a\nb\n";
    let idx = LineIndex::build(data);
    assert_eq!(idx.line_count(), 2);
    assert_eq!(line_str(&idx, data, 0), "a");
    assert_eq!(line_str(&idx, data, 1), "b");
    assert!(idx.line_span(2).is_none());
}

#[test]
fn no_trailing_newline() {
    let data: &[u8] = b"a\nb";
    let idx = LineIndex::build(data);
    assert_eq!(idx.line_count(), 2);
    assert_eq!(line_str(&idx, data, 1), "b");
}

#[test]
fn crlf_endings() {
    let data: &[u8] = b"a\r\nb\r\n";
    let idx = LineIndex::build(data);
    assert_eq!(idx.line_count(), 2);
    assert_eq!(line_str(&idx, data, 0), "a");
    assert_eq!(line_str(&idx, data, 1), "b");
}

#[test]
fn single_line() {
    let data: &[u8] = b"only line";
    let idx = LineIndex::build(data);
    assert_eq!(idx.line_count(), 1);
    assert_eq!(line_str(&idx, data, 0), "only line");
}

fn quoted(data: &[u8]) -> LineIndex {
    LineIndex::build_quoted(data, b',', b'"')
}

#[test]
fn quoted_newline_is_field_data() {
    let data: &[u8] = b"a,\"x\ny\",b\nc,d,e\n";
    let idx = quoted(data);
    assert_eq!(idx.line_count(), 2);
    assert_eq!(line_str(&idx, data, 0), "a,\"x\ny\",b");
    assert_eq!(line_str(&idx, data, 1), "c,d,e");
}

#[test]
fn quoted_crlf_is_field_data() {
    let data: &[u8] = b"a,\"x\r\ny\",b\r\nc,d,e\r\n";
    let idx = quoted(data);
    assert_eq!(idx.line_count(), 2);
    assert_eq!(line_str(&idx, data, 0), "a,\"x\r\ny\",b");
}

#[test]
fn escaped_quotes_stay_inside_the_field() {
    let data: &[u8] = b"a,\"he said \"\"hi\"\"\nbye\"\nz,w\n";
    let idx = quoted(data);
    assert_eq!(idx.line_count(), 2);
    assert_eq!(line_str(&idx, data, 0), "a,\"he said \"\"hi\"\"\nbye\"");
    assert_eq!(line_str(&idx, data, 1), "z,w");
}

#[test]
fn stray_mid_field_quote_is_literal() {
    let data: &[u8] = b"a,b\"c\nd,e\n";
    let idx = quoted(data);
    assert_eq!(idx.line_count(), 2);
    assert_eq!(line_str(&idx, data, 0), "a,b\"c");
    assert_eq!(line_str(&idx, data, 1), "d,e");
}

#[test]
fn doubled_quote_reads_as_escape_not_close() {
    let data: &[u8] = b"\"a\"\"b,c\nd,e\n";
    let idx = quoted(data);
    assert_eq!(idx.line_count(), 1);
    assert_eq!(line_str(&idx, data, 0), "\"a\"\"b,c\nd,e");
}

#[test]
fn bom_does_not_hide_a_quoted_first_field() {
    let data: &[u8] = b"\xEF\xBB\xBF\"x\ny\",a\nz,w\n";
    let idx = quoted(data);
    assert_eq!(idx.line_count(), 2);
    assert_eq!(line_str(&idx, data, 0), "\u{FEFF}\"x\ny\",a");
    assert_eq!(line_str(&idx, data, 1), "z,w");
}

#[test]
fn unterminated_quote_under_cap_runs_to_eof() {
    let data: &[u8] = b"a,\"x\ny";
    let idx = quoted(data);
    assert_eq!(idx.line_count(), 1);
    assert_eq!(line_str(&idx, data, 0), "a,\"x\ny");
}

#[test]
fn runaway_quote_is_demoted_to_literal() {
    let mut data = Vec::new();
    data.extend_from_slice(b"a,\"p\nq\n");
    data.extend(std::iter::repeat_n(b'z', MAX_QUOTED_SPAN_BYTES + 16));
    data.extend_from_slice(b"\nrest,row\n");
    let idx = quoted(&data);
    assert_eq!(idx.line_count(), 4);
    assert_eq!(line_str(&idx, &data, 0), "a,\"p");
    assert_eq!(line_str(&idx, &data, 1), "q");
    assert_eq!(line_str(&idx, &data, 3), "rest,row");
}

#[test]
fn no_quotes_matches_plain_build() {
    let data: &[u8] = b"a,b\nc,d\ne,f";
    let plain = LineIndex::build(data);
    let quoted = LineIndex::build_quoted(data, b',', b'"');
    assert_eq!(starts_of(&plain), starts_of(&quoted));
}

/// A plain per-byte state machine with the same grammar as `build_quoted`.
fn reference_record_starts(data: &[u8], delim: u8, quote: u8) -> Vec<u64> {
    let first_field_pos = if data.starts_with(UTF8_BOM) { UTF8_BOM.len() } else { 0 };
    let mut starts = vec![0u64];
    let mut in_quotes = false;
    let mut open_pos = 0usize;
    let mut pending: Vec<u64> = Vec::new();
    let mut i = 0;
    while i < data.len() {
        let b = data[i];
        if in_quotes {
            if b == quote {
                if data.get(i + 1) == Some(&quote) {
                    i += 2;
                    continue;
                }
                in_quotes = false;
                pending.clear();
            } else if b == b'\n' {
                if i - open_pos > MAX_QUOTED_SPAN_BYTES {
                    starts.append(&mut pending);
                    starts.push((i + 1) as u64);
                    in_quotes = false;
                } else {
                    pending.push((i + 1) as u64);
                }
            }
        } else if b == b'\n' {
            starts.push((i + 1) as u64);
        } else if b == quote {
            let at_field_start =
                i == first_field_pos || (i > 0 && (data[i - 1] == delim || data[i - 1] == b'\n'));
            if at_field_start {
                in_quotes = true;
                open_pos = i;
            }
        }
        i += 1;
    }
    if in_quotes && data.len() - open_pos > MAX_QUOTED_SPAN_BYTES {
        starts.append(&mut pending);
    }
    let file_len = data.len() as u64;
    if starts.last().copied() != Some(file_len) {
        starts.push(file_len);
    }
    starts
}

#[test]
fn build_quoted_agrees_with_reference_on_generated_soup() {
    let mut state = 0x2545F4914F6CDD1Du64;
    let mut next = move || {
        state = state
            .wrapping_mul(6364136223846793005)
            .wrapping_add(1442695040888963407);
        (state >> 33) as usize
    };
    const ALPHABET: &[u8] = b"\"\"\"\n\n,,xy\r";
    for case in 0..200 {
        let len = 1 + next() % 63;
        let data: Vec<u8> = (0..len).map(|_| ALPHABET[next() % ALPHABET.len()]).collect();
        let idx = LineIndex::build_quoted(&data, b',', b'"');
        let expected = reference_record_starts(&data, b',', b'"');
        assert_eq!(
            starts_of(&idx),
            expected,
            "case {case}: input {:?}",
            String::from_utf8_lossy(&data)
        );
    }
}

#[test]
fn empty_input_has_no_records() {
    let idx = LineIndex::build(b"");
    assert_eq!(idx.line_count(), 0);
    assert!(idx.line_span(0).is_none());
    let q = LineIndex::build_quoted(b"", b',', b'"');
    assert_eq!(q.line_count(), 0);
}

#[test]
fn line_span_is_exact() {
    let data: &[u8] = b"ab\ncd\r\nef";
    let idx = LineIndex::build(data);
    assert_eq!(idx.line_span(0), Some((0, 3)));
    assert_eq!(idx.line_span(1), Some((3, 7)));
    assert_eq!(idx.line_span(2), Some((7, 9)));
    assert_eq!(idx.line_span(3), None);
    assert_eq!(idx.line_span(usize::MAX), None);
}

#[test]
fn quoted_records_join_whole_lines() {
    let data: &[u8] = b"a,\"x\ny\",b\nc,d\"e\nf,\"g\"\"\nh\"\n";
    let idx = LineIndex::build_quoted(data, b',', b'"');
    let mut starts = Vec::new();
    for i in 0..idx.line_count() {
        let (s, e) = idx.line_span(i).unwrap();
        starts.push(s);
        assert!(e == data.len() || data[e - 1] == b'\n');
    }
    for &s in &starts {
        assert!(s == 0 || data[s - 1] == b'\n');
    }
    assert_eq!(starts, vec![0, 10, 16]);
}
