use dumpflow::parse::{parse_table_data, split_lines, parse_segment_range, ParseErr};
use flate2::write::GzEncoder;
use flate2::Compression;
use std::io::Write;

fn gz_bytes(text: &[u8]) -> Vec<u8> {
    let mut e = GzEncoder::new(Vec::new(), Compression::default());
    e.write_all(text).unwrap();
    e.finish().unwrap()
}

fn row(fields: &[&str]) -> Vec<Vec<u8>> {
    fields.iter().map(|f| f.as_bytes().to_vec()).collect()
}

#[test]
fn parses_simple_dump() {
    let text = b"CREATE TABLE `items` (\n('one','1')\n('two','2')\n)\n";
    let tm = parse_table_data(&gz_bytes(text)).unwrap();
    let rows = tm.get(b"items").unwrap();
    assert_eq!(rows.len(), 2);
    assert_eq!(rows[0], row(&["one", "1"]));
    assert_eq!(rows[1], row(&["two", "2"]));
}

#[test]
fn quoted_comma_stays_one_field() {
    let text = b"CREATE TABLE `t` (\n('a,b','c')\n)\n";
    let tm = parse_table_data(&gz_bytes(text)).unwrap();
    let rows = tm.get(b"t").unwrap();
    assert_eq!(rows[0], row(&["a,b", "c"]));
}

#[test]
fn quoted_continuation_line_stays_one_field() {
    // The quoted value holds an embedded line break; the logical row is
    // reconstructed as one field, not split.
    let text = b"CREATE TABLE `t` (\n('first\nsecond','x')\n)\n";
    let tm = parse_table_data(&gz_bytes(text)).unwrap();
    let rows = tm.get(b"t").unwrap();
    assert_eq!(rows.len(), 1);
    assert_eq!(rows[0], row(&["first\nsecond", "x"]));
}

#[test]
fn escaped_quote_inside_value() {
    let text = b"CREATE TABLE `t` (\n('don\\'t','x')\n)\n";
    let tm = parse_table_data(&gz_bytes(text)).unwrap();
    let rows = tm.get(b"t").unwrap();
    assert_eq!(rows[0], row(&["don't", "x"]));
}

#[test]
fn unquoted_fields_and_schema_lines_skipped() {
    let text = b"-- preamble\nCREATE TABLE `n` (\n  id INT,\n  name TEXT\n)\nCREATE TABLE `n` (\n(1,2)\n)\n";
    let tm = parse_table_data(&gz_bytes(text)).unwrap();
    let rows = tm.get(b"n").unwrap();
    assert_eq!(rows.len(), 1);
    assert_eq!(rows[0], row(&["1", "2"]));
}

#[test]
fn parallel_parse_equals_sequential_fold() {
    // Many tables, so the boundary-aligned segmentation actually splits;
    // the merged result must equal one sequential pass over all lines.
    let mut text = Vec::new();
    for t in 0..20 {
        text.extend_from_slice(format!("CREATE TABLE `tab{}` (\n", t).as_bytes());
        for r in 0..5 {
            text.extend_from_slice(format!("('k{}','v{}')\n", r, r * t).as_bytes());
        }
        text.extend_from_slice(b")\n");
    }
    let tm = parse_table_data(&gz_bytes(&text)).unwrap();

    let lines = split_lines(&text);
    let n = lines.len();
    let events = parse_segment_range(&lines, 0, n).unwrap();
    for t in 0..20 {
        let name = format!("tab{}", t).into_bytes();
        let sequential: Vec<Vec<Vec<u8>>> = events
            .iter()
            .filter(|(n, _)| *n == name)
            .map(|(_, r)| r.clone())
            .collect();
        let parallel = tm.get(&name).unwrap();
        assert_eq!(*parallel, sequential);
    }
}

#[test]
fn rejects_stream_that_is_not_gzip() {
    assert!(matches!(parse_table_data(b"plainly not a gzip stream"), Err(ParseErr::NotGzip)));
}

#[test]
fn rejects_invalid_text() {
    let bad = gz_bytes(&[0xff, 0xfe, 0xfd]);
    assert!(matches!(parse_table_data(&bad), Err(ParseErr::BadText)));
}

#[test]
fn rejects_table_line_without_closing_backtick() {
    let text = b"CREATE TABLE `broken (\n(1,2)\n)\n";
    assert!(matches!(parse_table_data(&gz_bytes(text)), Err(ParseErr::BadTableLine)));
}

#[test]
fn rejects_quoting_never_closed() {
    let text = b"CREATE TABLE `t` (\n('open value\n";
    assert!(matches!(parse_table_data(&gz_bytes(text)), Err(ParseErr::UnclosedQuote)));
}

#[test]
fn empty_stream_parses_to_no_tables() {
    let tm = parse_table_data(&gz_bytes(b"")).unwrap();
    assert!(tm.entries.is_empty());
    assert!(tm.get(b"anything").is_none());
}

#[test]
fn carriage_returns_are_stripped_from_line_ends() {
    let text = b"CREATE TABLE `t` (\r\n('a','b')\r\n)\r\n";
    let tm = parse_table_data(&gz_bytes(text)).unwrap();
    let rows = tm.get(b"t").unwrap();
    assert_eq!(rows[0], row(&["a", "b"]));
}

#[test]
fn marker_finalizes_row_in_progress() {
    // The row never reaches its closing delimiter; the table-end marker
    // finalizes what accumulated.
    let text = b"CREATE TABLE `t` (\n('a','b'\n)\n";
    let tm = parse_table_data(&gz_bytes(text)).unwrap();
    let rows = tm.get(b"t").unwrap();
    assert_eq!(rows.len(), 1);
    assert_eq!(rows[0], row(&["a", "b"]));
}

#[test]
fn reopened_table_keeps_row_order() {
    let text = b"CREATE TABLE `t` (\n('1')\n)\nCREATE TABLE `u` (\n('x')\n)\nCREATE TABLE `t` (\n('2')\n)\n";
    let tm = parse_table_data(&gz_bytes(text)).unwrap();
    let rows = tm.get(b"t").unwrap();
    assert_eq!(*rows, vec![row(&["1"]), row(&["2"])]);
    assert_eq!(*tm.get(b"u").unwrap(), vec![row(&["x"])]);
}
