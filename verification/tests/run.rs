use ccwc::engine::process_wc_options;
use ccwc::options::get_default_options;
use ccwc::run::{
    counts_for_outcome, diagnostic_line, fold_total, should_print_total, split_null_separated,
    InputOutcome,
};

#[test]
fn totals_are_elementwise_sums() {
    let opts = get_default_options();
    let a = process_wc_options(&"a b\n".to_string(), &opts);
    let b = process_wc_options(&"one two three\nfour\n".to_string(), &opts);
    let mut total: Vec<usize> = Vec::new();
    fold_total(&mut total, &a);
    fold_total(&mut total, &b);
    assert_eq!(total.len(), a.len());
    for i in 0..total.len() {
        assert_eq!(total[i], a[i] + b[i]);
    }
    assert_eq!(total, vec![3, 6, 23]);
}

#[test]
fn first_fold_takes_the_vector_as_is() {
    let mut total: Vec<usize> = Vec::new();
    fold_total(&mut total, &vec![1, 2, 4]);
    assert_eq!(total, vec![1, 2, 4]);
}

#[test]
fn total_line_only_for_more_than_one_input() {
    assert!(!should_print_total(0));
    assert!(!should_print_total(1));
    assert!(should_print_total(2));
    assert!(should_print_total(5));
}

#[test]
fn a_directory_contributes_zeros() {
    let opts = get_default_options();
    let counts = counts_for_outcome(&InputOutcome::Directory, &opts);
    assert_eq!(counts, Some(vec![0, 0, 0]));
}

#[test]
fn a_missing_path_contributes_nothing() {
    let opts = get_default_options();
    assert_eq!(counts_for_outcome(&InputOutcome::Missing, &opts), None);
}

#[test]
fn content_is_counted_by_the_engine() {
    let opts = get_default_options();
    let outcome = InputOutcome::Content("a b\n".to_string());
    assert_eq!(counts_for_outcome(&outcome, &opts), Some(vec![1, 2, 4]));
}

#[test]
fn directory_diagnostic_names_the_path() {
    let line = diagnostic_line(&InputOutcome::Directory, "somedir");
    assert_eq!(line, Some("ccwc somedir is a directory".to_string()));
}

#[test]
fn missing_diagnostic_names_the_path() {
    let line = diagnostic_line(&InputOutcome::Missing, "nope.txt");
    assert_eq!(
        line,
        Some("ccwc: nope.txt: No such file or directory".to_string())
    );
}

#[test]
fn counted_content_prints_no_diagnostic() {
    let outcome = InputOutcome::Content("x".to_string());
    assert_eq!(diagnostic_line(&outcome, "x.txt"), None);
}

#[test]
fn nul_separated_names_are_split() {
    let names = split_null_separated(&"a.txt\0b.txt".to_string());
    assert_eq!(names, vec!["a.txt".to_string(), "b.txt".to_string()]);
}

#[test]
fn trailing_nul_yields_a_trailing_empty_name() {
    let names = split_null_separated(&"a.txt\0".to_string());
    assert_eq!(names, vec!["a.txt".to_string(), String::new()]);
}

#[test]
fn empty_index_yields_one_empty_name() {
    let names = split_null_separated(&String::new());
    assert_eq!(names, vec![String::new()]);
}
