use freeswitch_sofia_trace_parser::GrepFilter;

fn filter(input: &[u8]) -> Vec<u8> {
    GrepFilter::new(input).into_bytes()
}

#[test]
fn strip_separator() {
    assert_eq!(filter(b"hello\n--\nworld\n"), b"hello\nworld\n");
}

#[test]
fn strip_crlf_separator() {
    assert_eq!(filter(b"hello\n--\r\nworld\n"), b"hello\nworld\n");
}

#[test]
fn passthrough_no_separators() {
    let input = b"line one\nline two\nline three\n";
    assert_eq!(filter(input), input);
}

#[test]
fn consecutive_separators() {
    assert_eq!(filter(b"a\n--\n--\n--\nb\n"), b"a\nb\n");
}

#[test]
fn separator_at_start() {
    assert_eq!(filter(b"--\nhello\n"), b"hello\n");
}

#[test]
fn partial_separator_preserved() {
    let input = b"---\n-- \n--x\n";
    assert_eq!(filter(input), input);
}

#[test]
fn empty_input() {
    assert_eq!(filter(b""), b"");
}

#[test]
fn only_separators() {
    assert_eq!(filter(b"--\n--\n--\n"), b"");
}

#[test]
fn no_trailing_newline() {
    assert_eq!(filter(b"hello"), b"hello");
}

#[test]
fn binary_content_with_separator_like_bytes() {
    let input = b"data\x00--\nmore\n";
    assert_eq!(filter(input), input);
}
