use nexus_core::parser::field_ranges;
use nexus_core::{NexusError, Query};

fn cols() -> Vec<String> {
    vec!["host".into(), "message".into()]
}

fn run(query: &str, line: &[u8]) -> bool {
    let columns = cols();
    let q = Query::compile(query, &columns).unwrap();
    let fields = if q.has_scoped() {
        Some(field_ranges(line, b',', b'"'))
    } else {
        None
    };
    q.matches(line, fields.as_ref(), b'"')
}

#[test]
fn implicit_and() {
    assert!(run("disk error", b"web01,disk error here"));
    assert!(!run("disk error", b"web01,disk ok"));
}

#[test]
fn explicit_operators() {
    assert!(run("error OR warning", b"x,warning state"));
    assert!(run("error AND NOT timeout", b"x,error fatal"));
    assert!(!run("error AND NOT timeout", b"x,error timeout"));
}

#[test]
fn parentheses() {
    assert!(run("(a OR b) AND c", b"x,a c"));
    assert!(!run("(a OR b) AND c", b"x,a d"));
}

#[test]
fn case_insensitive_substring() {
    assert!(run("ERROR", b"x,an error occurred"));
}

#[test]
fn regex_term() {
    assert!(run(r"/err\d+/", b"x,err42 raised"));
    assert!(!run(r"/err\d+/", b"x,error"));
}

#[test]
fn regex_with_spaces() {
    assert!(run(r"/worker 3/", b"x,done by worker 3 now"));
    assert!(!run(r"/worker 3/", b"x,done by worker 4 now"));
}

#[test]
fn scoped_regex_with_spaces() {
    assert!(run(r"message:/disk full/", b"web01,disk full alert"));
    assert!(!run(r"message:/disk full/", b"disk full,ok"));
}

#[test]
fn scoped_quoted_value_with_space() {
    assert!(run("host:\"web 01\"", b"web 01,some message"));
    assert!(!run("host:\"web 01\"", b"web02,web 01 here"));
}

#[test]
fn scope_by_column_index() {
    assert!(run("#0:web01", b"web01,login"));
    assert!(!run("#1:web01", b"web01,login"));
    assert!(run("#1:\"disk full\"", b"web01,disk full now"));
}

#[test]
fn column_scope() {
    assert!(run("host:web01", b"web01,some error"));
    assert!(!run("host:web01", b"web02,web01 in message"));
}

#[test]
fn colon_value_not_a_scope() {
    assert!(run("12:34:56", b"x,event at 12:34:56"));
}

#[test]
fn empty_query_matches_all() {
    assert!(run("", b"anything"));
    assert!(run("   ", b"anything"));
}

#[test]
fn invalid_regex_errors() {
    let columns = cols();
    assert!(Query::compile("/(/", &columns).is_err());
}

#[test]
fn unbalanced_paren_errors() {
    let columns = cols();
    assert!(Query::compile("(a OR b", &columns).is_err());
}

#[test]
fn compile_errors_are_invalid_query() {
    let columns = cols();
    assert!(matches!(Query::compile("/(/", &columns), Err(NexusError::InvalidQuery(_))));
    assert!(matches!(Query::compile("a )", &columns), Err(NexusError::InvalidQuery(_))));
}

#[test]
fn single_substring_is_lower_cased() {
    let columns = cols();
    let q = Query::compile("HOST:Web01", &columns).unwrap();
    assert!(q.has_scoped());
    let (col, needle) = q.single_substring().unwrap();
    assert_eq!(col, Some(0));
    assert_eq!(needle, b"web01");
    let g = Query::compile("Disk", &columns).unwrap();
    assert_eq!(g.single_substring().map(|(c, n)| (c, n.to_vec())), Some((None, b"disk".to_vec())));
    let b = Query::compile("a OR b", &columns).unwrap();
    assert!(b.single_substring().is_none());
}

#[test]
fn scoped_term_without_fields_does_not_match() {
    let columns = cols();
    let q = Query::compile("host:web01", &columns).unwrap();
    assert!(!q.matches(b"web01,x", None, b'"'));
}

#[test]
fn not_binds_tighter_than_and() {
    assert!(run("NOT a AND b", b"x,b only"));
    assert!(!run("NOT a AND b", b"x,a and b"));
}
