use oxutils::cut::list::{CutRange as OldRange, CutRangeStrError};
use oxutils::cut::range::cut::{self, CutRange, ListCutStrError};
use oxutils::cut::range::{CutList, Selector};
use oxutils::cut::{
    determine_output_delimiter, handle_byte_fields, handle_char_fields, handle_field_fields,
    verify_args, Cli, Selectors,
};

fn cli(bytes: Option<&str>, characters: Option<&str>, fields: Option<&str>) -> Cli {
    Cli {
        selectors: Selectors {
            bytes: bytes.map(|s| CutList::from_str(s).unwrap()),
            characters: characters.map(|s| CutList::from_str(s).unwrap()),
            fields: fields.map(|s| CutList::from_str(s).unwrap()),
        },
        delimiter: '\t',
        complement: false,
        only_delimited: false,
        output_delimiter: None,
        files: vec!["-".to_string()],
        zero_terminated: false,
        verbose: 0,
    }
}

#[test]
fn test_parse_cut_range_single() {
    let args = cli(Some("1"), None, None);
    assert_eq!(args.files.len(), 1);
    let byte_selector = args.selectors.bytes.unwrap();
    assert_eq!(byte_selector, CutList::new(vec![CutRange::from(1)]));
    assert_eq!(
        byte_selector,
        CutList::new(vec![cut::CutRange::from(1usize)])
    );
}

#[test]
fn test_parse_cut_range_single_illegal() {
    let res = CutList::from_str("-");
    assert!(res.is_err_and(|e| e.message().contains("illegal list value")));
}

#[test]
fn test_parse_cut_range_single_zero() {
    let res = CutList::from_str("0");
    assert!(res.is_err_and(|e| e.message().contains("values may not include zero")));
}

#[test]
fn test_parse_space_ranges() {
    let bytes_selector = cli(Some("1 2"), None, None).selectors.bytes.unwrap();
    assert_eq!(
        bytes_selector,
        CutList::new(vec![CutRange::from(1), CutRange::from(2)])
    );
}

#[test]
fn test_parse_comma_ranges() {
    let bytes_selector = cli(Some("1,2"), None, None).selectors.bytes.unwrap();
    assert_eq!(
        bytes_selector,
        CutList::new(vec![CutRange::from(1), CutRange::from(2)])
    );
}

#[test]
fn list_test_illegal_list_val_errs() {
    assert!(OldRange::from_str("1:2").is_err_and(|x| x == CutRangeStrError::IllegalListValue));
    assert!(OldRange::from_str("a").is_err_and(|x| x == CutRangeStrError::IllegalListValue));
    assert!(OldRange::from_str("1-b").is_err_and(|x| x == CutRangeStrError::IllegalListValue));
    assert!(OldRange::from_str("a-").is_err_and(|x| x == CutRangeStrError::IllegalListValue));
    assert!(OldRange::from_str("1--2").is_err_and(|x| x == CutRangeStrError::IllegalListValue));
    assert!(OldRange::from_str("--2").is_err_and(|x| x == CutRangeStrError::IllegalListValue));
    assert!(OldRange::from_str("--").is_err_and(|x| x == CutRangeStrError::IllegalListValue));
    assert!(OldRange::from_str("-").is_err_and(|x| x == CutRangeStrError::IllegalListValue));
}

#[test]
fn list_test_no_zeroes_allowed() {
    assert!(OldRange::from_str("0").is_err_and(|x| x == CutRangeStrError::ListMayNotIncludeZero));
    assert!(OldRange::from_str("0-").is_err_and(|x| x == CutRangeStrError::ListMayNotIncludeZero));
    assert!(OldRange::from_str("-0").is_err_and(|x| x == CutRangeStrError::ListMayNotIncludeZero));
    assert!(OldRange::from_str("0-0").is_err_and(|x| x == CutRangeStrError::ListMayNotIncludeZero));
}

#[test]
fn list_test_valid_single() {
    assert!(OldRange::from_str("1").is_ok_and(|x| x == OldRange::Single(1)));
    assert!(OldRange::from_str("10").is_ok_and(|x| x == OldRange::Single(10)));
}

#[test]
fn list_test_valid_closed() {
    assert!(OldRange::from_str("-2").is_ok_and(|x| x == OldRange::Closed(1, 2)));
    assert!(OldRange::from_str("1-3").is_ok_and(|x| x == OldRange::Closed(1, 3)));
}

#[test]
fn list_test_valid_open() {
    assert!(OldRange::from_str("1-").is_ok_and(|x| x == OldRange::OpenEnd(1)));
    assert!(OldRange::from_str("10-").is_ok_and(|x| x == OldRange::OpenEnd(10)));
}

#[test]
fn test_byte_suppress_delimited() {
    let mut args = cli(Some("1"), None, None);
    args.only_delimited = true;
    let result = verify_args(&args);
    assert!(result.is_err_and(|msg| msg.starts_with("Suppressing")));
}

#[test]
fn test_byte_input_delimiter() {
    let mut args = cli(Some("1"), None, None);
    args.delimiter = ':';
    let result = verify_args(&args);
    assert!(result.is_err_and(|msg| msg.starts_with("An input")));
}

#[test]
fn test_char_suppress_delimited() {
    let mut args = cli(None, Some("1"), None);
    args.only_delimited = true;
    let result = verify_args(&args);
    assert!(result.is_err_and(|msg| msg.starts_with("Suppressing")));
}

#[test]
fn test_char_input_delimiter() {
    let mut args = cli(None, Some("1"), None);
    args.delimiter = ':';
    let result = verify_args(&args);
    assert!(result.is_err_and(|msg| msg.starts_with("An input")));
}

#[test]
fn cut_test_illegal_list_val_errs() {
    assert!(CutRange::from_str("1:2").is_err_and(|x| x == ListCutStrError::IllegalListValue));
    assert!(CutRange::from_str("a").is_err_and(|x| x == ListCutStrError::IllegalListValue));
    assert!(CutRange::from_str("1-b").is_err_and(|x| x == ListCutStrError::IllegalListValue));
    assert!(CutRange::from_str("a-").is_err_and(|x| x == ListCutStrError::IllegalListValue));
    assert!(CutRange::from_str("1--2").is_err_and(|x| x == ListCutStrError::IllegalListValue));
    assert!(CutRange::from_str("--2").is_err_and(|x| x == ListCutStrError::IllegalListValue));
    assert!(CutRange::from_str("--").is_err_and(|x| x == ListCutStrError::IllegalListValue));
    assert!(CutRange::from_str("-").is_err_and(|x| x == ListCutStrError::IllegalListValue));
}

#[test]
fn cut_test_no_zeroes_allowed() {
    assert!(CutRange::from_str("0").is_err_and(|x| x == ListCutStrError::ListMayNotIncludeZero));
    assert!(CutRange::from_str("0-").is_err_and(|x| x == ListCutStrError::ListMayNotIncludeZero));
    assert!(CutRange::from_str("-0").is_err_and(|x| x == ListCutStrError::ListMayNotIncludeZero));
    assert!(CutRange::from_str("0-0").is_err_and(|x| x == ListCutStrError::ListMayNotIncludeZero));
}

#[test]
fn cut_test_valid_single() {
    assert!(CutRange::from_str("1").is_ok_and(|x| x == CutRange::Single(1)));
    assert!(CutRange::from_str("10").is_ok_and(|x| x == CutRange::Single(10)));
}

#[test]
fn cut_test_valid_closed() {
    assert!(CutRange::from_str("-2").is_ok_and(|x| x == CutRange::Closed(1, 2)));
    assert!(CutRange::from_str("1-3").is_ok_and(|x| x == CutRange::Closed(1, 3)));
}

#[test]
fn cut_test_valid_open() {
    assert!(CutRange::from_str("1-").is_ok_and(|x| x == CutRange::OpenEnd(1)));
    assert!(CutRange::from_str("10-").is_ok_and(|x| x == CutRange::OpenEnd(10)));
}

#[test]
fn test_is_selected() {
    let contained = 2usize;
    assert!(CutRange::from(2).is_selected(contained));
    assert!(CutRange::OpenEnd(2).is_selected(contained));
    assert!(CutRange::Closed(1, 2).is_selected(contained));
}

#[test]
fn test_parse_whitespace() {
    assert_eq!(
        CutList::from_str("1 2").unwrap(),
        CutList::new(vec![CutRange::from(1), CutRange::from(2)])
    );
}

#[test]
fn test_parse_comma() {
    assert_eq!(
        CutList::from_str("1,2").unwrap(),
        CutList::new(vec![CutRange::from(1), CutRange::from(2)])
    );
}

#[test]
fn test_parse_mixed() {
    assert_eq!(
        CutList::from_str("1 2,3").unwrap(),
        CutList::new(vec![
            CutRange::from(1),
            CutRange::from(2),
            CutRange::from(3)
        ])
    );
}

#[test]
fn test_illegal_values() {
    assert!(CutList::from_str("a 1,2").is_err(),);
    assert!(CutList::from_str("1 a,2").is_err(),);
    assert!(CutList::from_str("1 2,a").is_err(),);
}

#[test]
fn ranges_at_their_limits() {
    assert_eq!(
        CutRange::from_str("18446744073709551615"),
        Ok(CutRange::Single(usize::MAX))
    );
    assert_eq!(
        CutRange::from_str("18446744073709551616"),
        Err(ListCutStrError::IllegalListValue)
    );
    assert_eq!(CutRange::from_str(""), Err(ListCutStrError::IllegalListValue));
    assert_eq!(CutRange::from_str("007"), Ok(CutRange::Single(7)));
    assert_eq!(CutRange::from_str("5-3"), Ok(CutRange::Closed(5, 3)));
    assert_eq!(
        CutRange::from_str("+3"),
        Err(ListCutStrError::IllegalListValue)
    );
    assert!(!CutRange::Closed(5, 3).is_selected(4));
    assert!(!CutRange::Single(2).is_selected(3));
    assert!(!CutRange::OpenEnd(4).is_selected(3));
    assert!(CutRange::OpenEnd(4).is_selected(usize::MAX));
}

#[test]
fn lists_and_their_pieces() {
    assert!(CutList::from_str("").unwrap().is_empty());
    assert!(CutList::from_str(" \t ").unwrap().is_empty());
    assert_eq!(CutList::from_str("1,,2"), Err(ListCutStrError::IllegalListValue));
    assert_eq!(CutList::from_str("1, 2"), Err(ListCutStrError::IllegalListValue));
    assert_eq!(CutList::from_str("0 x"), Err(ListCutStrError::ListMayNotIncludeZero));
    assert_eq!(CutList::from_str("x 0"), Err(ListCutStrError::IllegalListValue));
    let list = CutList::from_str("1-2,5 7-").unwrap();
    assert_eq!(list.len(), 3);
    assert!(list.is_selected(1));
    assert!(list.is_selected(2));
    assert!(!list.is_selected(3));
    assert!(list.is_selected(5));
    assert!(!list.is_selected(6));
    assert!(list.is_selected(100));
    assert!(!CutList::default().is_selected(1));
}

#[test]
fn output_delimiter_is_chosen() {
    let mut args = cli(None, None, Some("1"));
    args.delimiter = ':';
    assert_eq!(determine_output_delimiter(&args), ":");
    args.output_delimiter = Some(String::new());
    assert_eq!(determine_output_delimiter(&args), "\0");
    args.output_delimiter = Some(" | ".to_string());
    assert_eq!(determine_output_delimiter(&args), " | ");
    assert!(verify_args(&args).is_ok());
    args.only_delimited = true;
    assert!(verify_args(&args).is_ok());
    assert!(verify_args(&cli(Some("1"), None, None)).is_ok());
}

#[test]
fn fields_of_a_line() {
    let list = CutList::from_str("1,3").unwrap();
    assert_eq!(
        handle_field_fields("a:b:c:d\n", ':', "-", false, '\n', &list, false),
        "a-c\n"
    );
    // the last field brings its line feed along
    assert_eq!(
        handle_field_fields("a:b:c\n", ':', "-", false, '\n', &list, false),
        "a-c\n\n"
    );
    assert_eq!(
        handle_field_fields("a:b:c:d\n", ':', "-", false, '\n', &list, true),
        "b-d\n\n"
    );
    // a line without delimiter is written as it is, or left out
    assert_eq!(
        handle_field_fields("abc\n", ':', "-", false, '\n', &list, false),
        "abc\n\n"
    );
    assert_eq!(
        handle_field_fields("abc\n", ':', "-", true, '\n', &list, false),
        "\n"
    );
    assert_eq!(
        handle_field_fields("abc", ':', "-", true, '\n', &list, false),
        "abc\n"
    );
    assert_eq!(
        handle_field_fields("", ':', "-", false, '\n', &list, false),
        "\n"
    );
}

#[test]
fn bytes_of_a_line() {
    let list = CutList::from_str("1,3-4").unwrap();
    assert_eq!(handle_byte_fields("abcdef\n", '\n', &list, false), "acd\n\n");
    assert_eq!(handle_byte_fields("abcdef\n", '\n', &list, true), "bef\n\n");
    assert_eq!(handle_byte_fields("abcdef", '\n', &list, false), "acd\n");
    // the two bytes of a character count one by one
    assert_eq!(
        handle_byte_fields("\u{e9}t\u{e9}", '\n', &list, false),
        "\u{c3}t\u{c3}\n"
    );
    assert_eq!(handle_byte_fields("a\0b", '\0', &list, false), "a\0b\0");
    assert_eq!(handle_byte_fields("a\0b", '\0', &list, true), "\0\0");
}

#[test]
fn characters_of_a_line() {
    let list = CutList::from_str("1,3").unwrap();
    assert_eq!(handle_char_fields("abcdef\n", '\n', &list, false), "ac\n\n");
    assert_eq!(handle_char_fields("abcdef\n", '\n', &list, true), "bdef\n\n");
    // a character stands where its first byte stands
    assert_eq!(handle_char_fields("\u{e9}t\u{e9}", '\n', &list, false), "\u{e9}t\n");
    assert_eq!(handle_char_fields("", '\n', &list, false), "\n");
}
