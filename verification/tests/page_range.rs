use pdftool_core::{parse_page_range, RangeError};

#[test]
fn test_single_page() {
    assert_eq!(parse_page_range("3").unwrap(), vec![3]);
}

#[test]
fn test_range() {
    assert_eq!(parse_page_range("2-5").unwrap(), vec![2, 3, 4, 5]);
}

#[test]
fn test_comma_separated() {
    assert_eq!(parse_page_range("1,3,5").unwrap(), vec![1, 3, 5]);
}

#[test]
fn test_mixed() {
    assert_eq!(parse_page_range("1,3-5,8").unwrap(), vec![1, 3, 4, 5, 8]);
}

#[test]
fn test_dedup() {
    assert_eq!(parse_page_range("1,1,2").unwrap(), vec![1, 2]);
}

#[test]
fn test_zero_page_error() {
    assert!(parse_page_range("0").is_err());
}

#[test]
fn test_invalid_range_error() {
    assert!(parse_page_range("5-2").is_err());
}

#[test]
fn test_invalid_input_error() {
    assert!(parse_page_range("abc").is_err());
}

#[test]
fn test_output_canonical() {
    // sorted ascending, no duplicates, nothing below 1
    let v = parse_page_range("9,2-4,3,1,9").unwrap();
    assert_eq!(v, vec![1, 2, 3, 4, 9]);
    for w in v.windows(2) {
        assert!(w[0] < w[1]);
    }
    assert!(v.iter().all(|&p| p >= 1));
}

#[test]
fn test_token_whitespace_trimmed() {
    assert_eq!(parse_page_range(" 2 - 5 , 1 ").unwrap(), vec![1, 2, 3, 4, 5]);
}

#[test]
fn test_error_invalid_page_number() {
    assert_eq!(
        parse_page_range("abc"),
        Err(RangeError::InvalidPageNumber("abc".to_string()))
    );
}

#[test]
fn test_error_invalid_range_bound() {
    assert_eq!(
        parse_page_range("1-x"),
        Err(RangeError::InvalidRangeBound("x".to_string()))
    );
}

#[test]
fn test_error_non_positive() {
    assert_eq!(parse_page_range("0"), Err(RangeError::NonPositivePage));
    assert_eq!(parse_page_range("0-3"), Err(RangeError::NonPositivePage));
}

#[test]
fn test_error_inverted_range() {
    assert_eq!(parse_page_range("5-2"), Err(RangeError::InvertedRange(5, 2)));
}

#[test]
fn test_first_bad_token_wins() {
    assert_eq!(
        parse_page_range("1,abc,5-2"),
        Err(RangeError::InvalidPageNumber("abc".to_string()))
    );
}

#[test]
fn test_empty_expression_fails() {
    assert_eq!(
        parse_page_range(""),
        Err(RangeError::InvalidPageNumber("".to_string()))
    );
}

#[test]
fn test_overflowing_number_fails() {
    assert_eq!(
        parse_page_range("4294967296"),
        Err(RangeError::InvalidPageNumber("4294967296".to_string()))
    );
}

#[test]
fn test_plus_sign_accepted() {
    // as str::parse::<u32> has it
    assert_eq!(parse_page_range("+3").unwrap(), vec![3]);
}

#[test]
fn test_single_element_range() {
    assert_eq!(parse_page_range("7-7").unwrap(), vec![7]);
}

#[test]
fn test_multi_digit_range() {
    assert_eq!(parse_page_range("10-12,9").unwrap(), vec![9, 10, 11, 12]);
}
