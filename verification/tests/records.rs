use sparse::record::{parse_dimension, parse_record, token_spans};
use sparse::vector::InputError;

fn tokens(field: &str) -> Vec<String> {
    token_spans(field.as_bytes()).iter().map(|(a, b)| field[*a..*b].to_string()).collect()
}

#[test]
fn empty_field_has_no_token() {
    assert!(token_spans(b"").is_empty());
}

#[test]
fn fields_split_at_every_separator() {
    assert_eq!(tokens("1|2|3"), vec!["1", "2", "3"]);
    assert_eq!(tokens("42"), vec!["42"]);
    assert_eq!(tokens("0.6|0.6|0.52915"), vec!["0.6", "0.6", "0.52915"]);
    assert_eq!(tokens("|"), vec!["", ""]);
    assert_eq!(tokens("1|"), vec!["1", ""]);
    assert_eq!(tokens("|1"), vec!["", "1"]);
    assert_eq!(tokens("1||2"), vec!["1", "", "2"]);
    assert_eq!(tokens(" 1 | 2"), vec![" 1 ", " 2"]);
}

#[test]
fn spans_are_byte_offsets() {
    assert_eq!(token_spans(b"10|2|345"), vec![(0, 2), (3, 4), (5, 8)]);
    assert_eq!(token_spans(b"|"), vec![(0, 0), (1, 1)]);
}

#[test]
fn dimensions_are_unsigned_decimal_numbers() {
    assert_eq!(parse_dimension(b"0"), Some(0));
    assert_eq!(parse_dimension(b"7"), Some(7));
    assert_eq!(parse_dimension(b"299999"), Some(299_999));
    assert_eq!(parse_dimension(b"007"), Some(7));
    assert_eq!(parse_dimension(b"+12"), Some(12));
    assert_eq!(parse_dimension(b"4294967295"), Some(u32::MAX));
    assert_eq!(parse_dimension(b"0000000004294967295"), Some(u32::MAX));
}

#[test]
fn what_is_no_dimension() {
    assert_eq!(parse_dimension(b""), None);
    assert_eq!(parse_dimension(b"+"), None);
    assert_eq!(parse_dimension(b"-1"), None);
    assert_eq!(parse_dimension(b"-0"), None);
    assert_eq!(parse_dimension(b"++1"), None);
    assert_eq!(parse_dimension(b"1+"), None);
    assert_eq!(parse_dimension(b" 1"), None);
    assert_eq!(parse_dimension(b"1 "), None);
    assert_eq!(parse_dimension(b"1.0"), None);
    assert_eq!(parse_dimension(b"1e3"), None);
    assert_eq!(parse_dimension(b"0x10"), None);
    assert_eq!(parse_dimension(b"12a"), None);
    assert_eq!(parse_dimension(b"4294967296"), None);
    assert_eq!(parse_dimension(b"99999999999999999999999999"), None);
    assert_eq!(parse_dimension(b"4294967296x"), None);
    assert_eq!(parse_dimension("\u{0663}".as_bytes()), None);
}

#[test]
fn dimensions_agree_with_the_standard_parser() {
    let samples = ["", "0", "1", "+1", "-1", "12", "0012", "4294967295", "4294967296", "1_000", "１", "+", "3 ", "18446744073709551616"];
    for s in samples {
        assert_eq!(parse_dimension(s.as_bytes()), s.parse::<u32>().ok(), "{:?}", s);
    }
}

#[test]
fn record_pairs_dimensions_with_weights() {
    let w = vec![0.6f64.to_bits(), 0.6f64.to_bits(), 0.52915f64.to_bits()];
    assert_eq!(
        parse_record(b"1|2|3", &w),
        Ok(vec![(1, 0.6f64.to_bits()), (2, 0.6f64.to_bits()), (3, 0.52915f64.to_bits())])
    );
    assert_eq!(parse_record(b"9", &vec![5]), Ok(vec![(9, 5)]));
}

#[test]
fn record_keeps_the_producers_order() {
    assert_eq!(parse_record(b"9|3|5", &vec![1, 2, 3]), Ok(vec![(9, 1), (3, 2), (5, 3)]));
    assert_eq!(parse_record(b"3|3", &vec![1, 2]), Ok(vec![(3, 1), (3, 2)]));
}

#[test]
fn empty_record_is_the_empty_vector() {
    assert_eq!(parse_record(b"", &Vec::new()), Ok(Vec::new()));
}

#[test]
fn record_with_a_bad_token_is_turned_down() {
    assert_eq!(parse_record(b"1|x|3", &vec![1, 2, 3]), Err(InputError::BadDimension));
    assert_eq!(parse_record(b"1||3", &vec![1, 2, 3]), Err(InputError::BadDimension));
    assert_eq!(parse_record(b"1|2|", &vec![1, 2, 3]), Err(InputError::BadDimension));
    assert_eq!(parse_record(b"|", &vec![1, 2]), Err(InputError::BadDimension));
    assert_eq!(parse_record(b"1|4294967296", &vec![1, 2]), Err(InputError::BadDimension));
    assert_eq!(parse_record(b"1,2", &vec![1, 2]), Err(InputError::BadDimension));
}

#[test]
fn record_with_unequal_lists_is_turned_down() {
    assert_eq!(parse_record(b"1|2|3", &vec![1, 2]), Err(InputError::LengthMismatch));
    assert_eq!(parse_record(b"1|2", &vec![1, 2, 3]), Err(InputError::LengthMismatch));
    assert_eq!(parse_record(b"", &vec![1]), Err(InputError::LengthMismatch));
    assert_eq!(parse_record(b"1", &Vec::new()), Err(InputError::LengthMismatch));
}

#[test]
fn bad_token_is_reported_before_unequal_lists() {
    assert_eq!(parse_record(b"1|x", &vec![1]), Err(InputError::BadDimension));
    assert_eq!(parse_record(b"x", &Vec::new()), Err(InputError::BadDimension));
}
