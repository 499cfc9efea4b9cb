use oxutils::uniq::count::{LineCounts, UniqueReader};
use oxutils::uniq::{handle_args, read_lines, repeated_lines, Args};

#[test]
fn uniq_test_dedup_adjacent_lines() {
    let deduped_lines: Vec<_> = read_lines("hello\nhello");
    assert_eq!(deduped_lines, vec!["hello".to_string()])
}

#[test]
fn uniq_test_no_dedup() {
    let deduped_lines: Vec<_> = read_lines("hello\nworld");
    assert_eq!(
        deduped_lines,
        vec!["hello".to_string(), "world".to_string()]
    )
}

#[test]
fn mod_test_dedup_adjacent_lines() {
    let deduped_lines: Vec<_> = read_lines("hello\nhello");
    assert_eq!(deduped_lines, vec!["hello".to_string()])
}

#[test]
fn mod_test_no_dedup() {
    let deduped_lines: Vec<_> = read_lines("hello\nworld");
    assert_eq!(
        deduped_lines,
        vec!["hello".to_string(), "world".to_string()]
    )
}

#[test]
#[should_panic]
fn mod_test_extra_newline() {
    let deduped_lines: Vec<_> = read_lines("hello\nworld\r\n\n");
    assert_eq!(
        deduped_lines,
        vec!["hello".to_string(), "world".to_string()]
    )
}

#[test]
fn mod_test_empty_duplicated() {
    let duplicate_lines: Vec<String> = repeated_lines("");
    assert_eq!(duplicate_lines, Vec::<String>::new());
}

#[test]
fn mod_test_duplicated() {
    let duplicate_lines: Vec<String> = repeated_lines("hello\nhello");
    assert_eq!(duplicate_lines, vec!["hello".to_string()]);
}

#[test]
fn test_count_lines_simple() {
    let uniq_reader = UniqueReader::new("hello\nhello\nhi".to_string());
    let outputs: Vec<_> = uniq_reader
        .into_line_counts()
        .include_counts()
        .into_lines();
    assert_eq!(outputs, vec!["   2 hello\n", "   1 hi\n"]);
}

#[test]
fn test_unique_lines() {
    let uniq_reader = UniqueReader::new("hello\nhello\nhi".to_string());
    let outputs: Vec<_> = uniq_reader.unique().into_line_counts().into_lines();
    assert_eq!(outputs, vec!["hi\n"]);
}

#[test]
fn count_test_dedup_adjacent_lines() {
    let uniq_reader = UniqueReader::new("hello\nhello".to_string());
    let deduped_lines: Vec<_> = uniq_reader.into_line_counts().into_lines();
    assert_eq!(deduped_lines, vec!["hello\n".to_string()])
}

#[test]
fn count_test_no_dedup() {
    let uniq_reader = UniqueReader::new("hello\nworld".to_string());
    let deduped_lines: Vec<_> = uniq_reader.into_line_counts().into_lines();
    assert_eq!(
        deduped_lines,
        vec!["hello\n".to_string(), "world\n".to_string()]
    )
}

#[test]
fn count_test_extra_newline() {
    let uniq_reader = UniqueReader::new("hello\nworld\r\n\n".to_string());
    let deduped_lines: Vec<_> = uniq_reader.into_line_counts().into_lines();
    assert_eq!(
        deduped_lines,
        vec!["hello\n".to_string(), "world\n".to_string()]
    )
}

#[test]
fn count_test_empty_duplicated() {
    let uniq_reader = UniqueReader::new("".to_string()).repeated();
    let duplicate_lines: Vec<_> = uniq_reader.into_line_counts().into_lines();
    assert_eq!(duplicate_lines, Vec::<String>::new());
}

#[test]
fn count_test_duplicated() {
    let uniq_reader = UniqueReader::new("hello\nhello".to_string()).repeated();
    let duplicate_lines: Vec<_> = uniq_reader.into_line_counts().into_lines();
    assert_eq!(duplicate_lines, vec!["hello\n".to_string()]);
}

#[test]
fn test_duplicated_straggler() {
    let uniq_reader = UniqueReader::new("hello\nhello\nhi".to_string()).repeated();
    let duplicate_lines: Vec<_> = uniq_reader.into_line_counts().into_lines();
    assert_eq!(duplicate_lines, vec!["hello\n".to_string()]);
}

#[test]
fn test_regular_case_insensitive_lower_first() {
    let ci_reader = UniqueReader::new("hello\nHELLO\n".to_string()).case_insensitive();
    let lines: Vec<_> = ci_reader.into_line_counts().into_lines();
    assert_eq!(lines, vec!["hello\n".to_string()]);
}

#[test]
fn test_regular_case_insensitive_upper_first() {
    let ci_reader = UniqueReader::new("HELLO\nhello\n".to_string()).case_insensitive();
    let lines: Vec<_> = ci_reader.into_line_counts().into_lines();
    assert_eq!(lines, vec!["HELLO\n".to_string()]);
}

#[test]
fn case_matters_unless_asked() {
    let reader = UniqueReader::new("hello\nHELLO\n".to_string());
    let lines: Vec<_> = reader.into_line_counts().into_lines();
    assert_eq!(lines, vec!["hello\n".to_string(), "HELLO\n".to_string()]);
}

#[test]
fn lines_end_at_line_feeds() {
    assert_eq!(read_lines(""), Vec::<String>::new());
    assert_eq!(read_lines("\n"), vec!["".to_string()]);
    assert_eq!(read_lines("a\r\nb\r"), vec!["a".to_string(), "b\r".to_string()]);
    assert_eq!(
        read_lines("hello\nworld\r\n\n"),
        vec!["hello".to_string(), "world".to_string(), "".to_string()]
    );
    assert_eq!(
        read_lines("a\na\nb\na\na\na"),
        vec!["a".to_string(), "b".to_string(), "a".to_string()]
    );
}

#[test]
fn repeated_lines_are_named_once() {
    assert_eq!(
        repeated_lines("a\na\nb\nb\na\na\nc"),
        vec!["a".to_string(), "b".to_string()]
    );
    assert_eq!(repeated_lines("a\nb\na"), Vec::<String>::new());
    // the first line is compared with the line before it, which there is none
    assert_eq!(repeated_lines("\n\n"), vec!["".to_string()]);
}

#[test]
fn groups_are_dropped_when_they_end() {
    let text = "a\na\nb\nc\nc\nc\nd";
    let all = UniqueReader::new(text.to_string())
        .into_line_counts()
        .include_counts()
        .into_lines();
    assert_eq!(all, vec!["   2 a\n", "   1 b\n", "   3 c\n", "   1 d\n"]);
    let repeated = UniqueReader::new(text.to_string())
        .repeated()
        .into_line_counts()
        .include_counts()
        .into_lines();
    assert_eq!(repeated, vec!["   2 a\n", "   3 c\n"]);
    let unique = UniqueReader::new(text.to_string())
        .unique()
        .into_line_counts()
        .into_lines();
    assert_eq!(unique, vec!["b\n", "d\n"]);
    // a last group of several lines has not ended, and stays
    let unique = UniqueReader::new("a\nb\nb".to_string())
        .unique()
        .into_line_counts()
        .into_lines();
    assert_eq!(unique, vec!["a\n", "b\n"]);
    // lines of white space are not grouped
    let blank = UniqueReader::new("a\n \t\n\na".to_string())
        .into_line_counts()
        .include_counts()
        .into_lines();
    assert_eq!(blank, vec!["   2 a\n"]);
}

#[test]
fn counts_take_four_characters_or_more() {
    assert_eq!(LineCounts::format_key_val("x", 7, true), "   7 x");
    assert_eq!(LineCounts::format_key_val("x", 1234, true), "1234 x");
    assert_eq!(LineCounts::format_key_val("x", 12345, true), "12345 x");
    assert_eq!(LineCounts::format_key_val("x", 0, true), "   0 x");
    assert_eq!(LineCounts::format_key_val("x", 7, false), "x");
    let counts = LineCounts::new(vec![("k\n".to_string(), 12)], true);
    assert_eq!(counts.into_lines(), vec!["  12 k\n"]);
    let counts = LineCounts::from(vec![("k\n".to_string(), 12)]);
    assert!(!counts.with_counts);
    assert_eq!(counts.into_lines(), vec!["k\n"]);
    assert!(LineCounts::default().into_lines().is_empty());
}

#[test]
fn the_command_line_chooses() {
    let text = "a\na\nb";
    let mut args = Args {
        count: true,
        repeated: true,
        unique: true,
        input_file: None,
        output_file: None,
        verbose: 0,
    };
    // repeated goes before unique
    assert_eq!(handle_args(&args, text.to_string()).into_lines(), vec!["   2 a\n"]);
    args.repeated = false;
    assert_eq!(handle_args(&args, text.to_string()).into_lines(), vec!["   1 b\n"]);
    args.unique = false;
    args.count = false;
    assert_eq!(handle_args(&args, text.to_string()).into_lines(), vec!["a\n", "b\n"]);
}
