use plotstream::datacontainer::{DataContainer, StoreError};
use plotstream::tokenizer::{collect_parsed, split_tokens};

/// The unverified edge of the ingestion pipeline: parse one token as a
/// floating-point literal and hand back its bit pattern on success.
fn parse_token(token: &[u8]) -> Option<u64> {
    std::str::from_utf8(token)
        .ok()
        .and_then(|t| t.parse::<f64>().ok())
        .map(f64::to_bits)
}

/// One line through the whole pipeline: split, parse, collect.
fn line_values(line: &str) -> Vec<u64> {
    let tokens = split_tokens(line.as_bytes());
    let mut outcomes: Vec<Option<u64>> = Vec::new();
    for token in &tokens {
        outcomes.push(parse_token(token));
    }
    collect_parsed(&outcomes)
}

#[test]
fn test_split_tokens_basic() {
    let tokens = split_tokens(b"1.0 abc 2.0");
    assert_eq!(tokens, vec![b"1.0".to_vec(), b"abc".to_vec(), b"2.0".to_vec()]);
}

#[test]
fn test_split_tokens_runs_of_whitespace() {
    let tokens = split_tokens(b"  7 \t\t 8\r\n");
    assert_eq!(tokens, vec![b"7".to_vec(), b"8".to_vec()]);
}

#[test]
fn test_split_tokens_empty_and_blank() {
    assert_eq!(split_tokens(b""), Vec::<Vec<u8>>::new());
    assert_eq!(split_tokens(b"   "), Vec::<Vec<u8>>::new());
}

#[test]
fn test_tokenize_drops_unparsed_without_gap() {
    // A dropped token must not advance a column index: "abc" leaves no gap.
    let values = line_values("1.0 abc 2.0");
    assert_eq!(values, vec![1.0f64.to_bits(), 2.0f64.to_bits()]);
}

#[test]
fn test_tokenize_blank_lines_yield_nothing() {
    assert_eq!(line_values(""), Vec::<u64>::new());
    assert_eq!(line_values("   "), Vec::<u64>::new());
}

#[test]
fn test_blank_line_triggers_no_append() {
    let mut container = DataContainer::default();
    let values = line_values("   ");
    if !values.is_empty() {
        container.append_row(&values);
    }
    assert_eq!(container.stream_count, 0);
    assert_eq!(container.read_full(0), Err(StoreError::StreamNotFound));
}

#[test]
fn test_lines_through_store() {
    // Two lines of different widths: the longer line creates the high
    // column, the shorter one only feeds the low columns.
    let mut container = DataContainer::default();
    for line in ["1.5 2.5 3.5", "4.5 5.5"] {
        let values = line_values(line);
        if !values.is_empty() {
            container.append_row(&values);
        }
    }
    assert_eq!(container.stream_count, 3);
    assert_eq!(
        container.read_full(0),
        Ok(vec![1.5f64.to_bits(), 4.5f64.to_bits()])
    );
    assert_eq!(
        container.read_full(1),
        Ok(vec![2.5f64.to_bits(), 5.5f64.to_bits()])
    );
    assert_eq!(container.read_full(2), Ok(vec![3.5f64.to_bits()]));
}

#[test]
fn test_collect_parsed_keeps_order() {
    let outcomes = vec![Some(3u64), None, Some(1u64), None, None, Some(2u64)];
    assert_eq!(collect_parsed(&outcomes), vec![3u64, 1u64, 2u64]);
}

#[test]
fn test_collect_parsed_all_failures() {
    let outcomes = vec![None, None];
    assert_eq!(collect_parsed(&outcomes), Vec::<u64>::new());
}

#[test]
fn test_parse_accepts_signs_and_exponents() {
    let values = line_values("-1.5 +2 3e2 .5 nope 6.");
    assert_eq!(
        values,
        vec![
            (-1.5f64).to_bits(),
            2.0f64.to_bits(),
            300.0f64.to_bits(),
            0.5f64.to_bits(),
            6.0f64.to_bits()
        ]
    );
}
