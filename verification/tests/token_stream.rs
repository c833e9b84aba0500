use token_dp::tokens::{tokenize_all, BufReadSplitter};
use token_dp::parse::parse_u64;

fn toks(input: &[u8]) -> Vec<Vec<u8>> {
    tokenize_all(input)
}

#[test]
fn tokens_single_line() {
    assert_eq!(toks(b"ab cd ef"), vec![b"ab".to_vec(), b"cd".to_vec(), b"ef".to_vec()]);
}

#[test]
fn tokens_mixed_whitespace() {
    assert_eq!(
        toks(b"  a\t\tbb \r\n\n c "),
        vec![b"a".to_vec(), b"bb".to_vec(), b"c".to_vec()]
    );
}

#[test]
fn tokens_across_lines() {
    assert_eq!(toks(b"1\n2\n3"), vec![b"1".to_vec(), b"2".to_vec(), b"3".to_vec()]);
}

#[test]
fn tokens_empty_input() {
    assert_eq!(toks(b""), Vec::<Vec<u8>>::new());
}

#[test]
fn tokens_only_whitespace() {
    assert_eq!(toks(b" \t\n\r  \n"), Vec::<Vec<u8>>::new());
}

#[test]
fn splitter_streams_tokens() {
    let mut sp = BufReadSplitter::new();
    sp.feed(b"12 3\n");
    assert_eq!(sp.next(), Some(b"12".to_vec()));
    assert_eq!(sp.next(), Some(b"3".to_vec()));
    assert_eq!(sp.next(), None);
    sp.feed(b" 45\n");
    assert_eq!(sp.next(), Some(b"45".to_vec()));
    assert_eq!(sp.next(), None);
}

#[test]
fn splitter_joins_unterminated_chunks() {
    // A fed chunk without a trailing separator stays pending: the next chunk
    // continues the same token.
    let mut sp = BufReadSplitter::new();
    sp.feed(b"ab");
    sp.feed(b"cd ");
    assert_eq!(sp.next(), Some(b"abcd".to_vec()));
    assert_eq!(sp.next(), None);
}

#[test]
fn parse_plain_number() {
    assert_eq!(parse_u64(b"123"), Some(123));
}

#[test]
fn parse_leading_zeros() {
    assert_eq!(parse_u64(b"007"), Some(7));
}

#[test]
fn parse_zero() {
    assert_eq!(parse_u64(b"0"), Some(0));
}

#[test]
fn parse_max_value() {
    assert_eq!(parse_u64(b"18446744073709551615"), Some(u64::MAX));
}

#[test]
fn parse_overflow_rejected() {
    assert_eq!(parse_u64(b"18446744073709551616"), None);
    assert_eq!(parse_u64(b"99999999999999999999999"), None);
}

#[test]
fn parse_rejects_non_digits() {
    assert_eq!(parse_u64(b""), None);
    assert_eq!(parse_u64(b"12a"), None);
    assert_eq!(parse_u64(b"-3"), None);
    assert_eq!(parse_u64(b"+3"), None);
    assert_eq!(parse_u64(b" 3"), None);
}
