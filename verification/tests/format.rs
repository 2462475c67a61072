use ccwc::format::{format_count, format_field, format_label, wc_format_output};

#[test]
fn decimal_rendering_is_exact() {
    assert_eq!(format_count(0), "0");
    assert_eq!(format_count(7), "7");
    assert_eq!(format_count(10), "10");
    assert_eq!(format_count(409), "409");
    assert_eq!(format_count(120030), "120030");
}

#[test]
fn field_right_aligns_to_width() {
    assert_eq!(format_field(42, 6), "    42");
    assert_eq!(format_field(42, 0), "42");
    assert_eq!(format_field(1234567, 6), "1234567");
}

#[test]
fn several_counts_are_padded_to_the_display_width() {
    let line = wc_format_output(&vec![1, 2, 4]);
    assert_eq!(line, "     1      2      4 ");
}

#[test]
fn a_single_count_is_not_padded() {
    let line = wc_format_output(&vec![5]);
    assert_eq!(line, "5 ");
}

#[test]
fn no_counts_give_an_empty_field_list() {
    let line = wc_format_output(&Vec::new());
    assert_eq!(line, "");
}

#[test]
fn label_is_right_aligned_to_the_display_width() {
    assert_eq!(format_label("foo"), "   foo");
    assert_eq!(format_label("total"), " total");
    assert_eq!(format_label(""), "      ");
    assert_eq!(format_label("longname"), "longname");
}
