use ccwc::engine::{
    count_bytes, count_chars, count_lines, count_max_line_length, count_words, process_wc_options,
};
use ccwc::options::{get_default_options, CliOptions};

fn all_options() -> Vec<CliOptions> {
    vec![
        CliOptions::CountLines,
        CliOptions::CountWords,
        CliOptions::CountCharacters,
        CliOptions::CountBytes,
        CliOptions::MaxLineLength,
    ]
}

#[test]
fn empty_content_counts_all_zero() {
    let counts = process_wc_options(&String::new(), &all_options());
    assert_eq!(counts, vec![0, 0, 0, 0, 0]);
}

#[test]
fn two_words_one_line_with_default_options() {
    let counts = process_wc_options(&"a b\n".to_string(), &get_default_options());
    assert_eq!(counts, vec![1, 2, 4]);
}

#[test]
fn no_trailing_terminator_still_one_line() {
    let content = "hello";
    assert_eq!(count_lines(content), 1);
    assert_eq!(count_words(content), 1);
}

#[test]
fn max_line_length_takes_the_longest_segment() {
    let content = "abc\nabcdefghij\nx\n";
    assert_eq!(count_max_line_length(content), 10);
    assert_eq!(count_lines(content), 3);
}

#[test]
fn multibyte_character_counts_bytes_and_chars_apart() {
    let content = "\u{20ac}";
    assert_eq!(count_bytes(content), 3);
    assert_eq!(count_chars(content), 1);
}

#[test]
fn counts_follow_request_order() {
    let opts = vec![CliOptions::CountBytes, CliOptions::CountLines];
    let counts = process_wc_options(&"a b\n".to_string(), &opts);
    assert_eq!(counts, vec![4, 1]);
}

#[test]
fn words_split_on_whitespace_runs() {
    assert_eq!(count_words("  one   two\tthree  \n four"), 4);
}

#[test]
fn words_do_not_span_line_boundaries() {
    assert_eq!(count_words("one\ntwo\nthree"), 3);
    assert_eq!(count_lines("one\ntwo\nthree"), 3);
}

#[test]
fn trailing_newline_opens_no_extra_line() {
    assert_eq!(count_lines("a\nb\n"), 2);
    assert_eq!(count_lines("a\nb"), 2);
    assert_eq!(count_lines("\n"), 1);
}

#[test]
fn carriage_return_line_ending_is_not_counted_in_length() {
    let content = "ab\r\ncdef\r\n";
    assert_eq!(count_lines(content), 2);
    assert_eq!(count_max_line_length(content), 4);
    assert_eq!(count_chars(content), 10);
    assert_eq!(count_bytes(content), 10);
}

#[test]
fn lone_trailing_carriage_return_is_content() {
    // without a following newline the carriage return is an ordinary character
    assert_eq!(count_lines("ab\r"), 1);
    assert_eq!(count_max_line_length("ab\r"), 3);
    assert_eq!(count_words("ab\r"), 1);
}

#[test]
fn carriage_return_inside_a_line_separates_words() {
    assert_eq!(count_lines("a\rb\n"), 1);
    assert_eq!(count_max_line_length("a\rb\n"), 3);
    assert_eq!(count_words("a\rb\n"), 2);
}

#[test]
fn unicode_whitespace_separates_words() {
    // an em space (U+2003) between two words
    assert_eq!(count_words("one\u{2003}two"), 2);
}

#[test]
fn blank_lines_count_but_hold_no_words() {
    let content = "a\n\n\nb\n";
    assert_eq!(count_lines(content), 4);
    assert_eq!(count_words(content), 2);
    assert_eq!(count_max_line_length(content), 1);
}
