use ccwc::options::{add_option, canonicalize, get_default_options, resolve_options, CliOptions};

#[test]
fn default_options_are_lines_words_bytes() {
    let d = get_default_options();
    assert_eq!(
        d,
        vec![
            CliOptions::CountLines,
            CliOptions::CountWords,
            CliOptions::CountBytes
        ]
    );
}

#[test]
fn empty_request_resolves_to_default() {
    let resolved = resolve_options(Vec::new());
    assert_eq!(resolved, get_default_options());
}

#[test]
fn nonempty_request_resolves_unchanged() {
    let mut opts: Vec<CliOptions> = Vec::new();
    add_option(CliOptions::MaxLineLength, &mut opts);
    let resolved = resolve_options(opts.clone());
    assert_eq!(resolved, opts);
}

#[test]
fn repeated_flag_is_idempotent() {
    let mut once: Vec<CliOptions> = Vec::new();
    add_option(CliOptions::CountWords, &mut once);
    let mut many: Vec<CliOptions> = Vec::new();
    add_option(CliOptions::CountWords, &mut many);
    add_option(CliOptions::CountWords, &mut many);
    add_option(CliOptions::CountWords, &mut many);
    assert_eq!(many, once);
}

#[test]
fn repeated_flag_after_others_is_dropped() {
    let mut opts: Vec<CliOptions> = Vec::new();
    add_option(CliOptions::CountLines, &mut opts);
    add_option(CliOptions::CountWords, &mut opts);
    add_option(CliOptions::CountLines, &mut opts);
    assert_eq!(opts, vec![CliOptions::CountLines, CliOptions::CountWords]);
}

#[test]
fn canonical_order_is_flag_order_independent() {
    let mut wl: Vec<CliOptions> = Vec::new();
    add_option(CliOptions::CountWords, &mut wl);
    add_option(CliOptions::CountLines, &mut wl);
    let mut lw: Vec<CliOptions> = Vec::new();
    add_option(CliOptions::CountLines, &mut lw);
    add_option(CliOptions::CountWords, &mut lw);
    let expected = vec![CliOptions::CountLines, CliOptions::CountWords];
    assert_eq!(canonicalize(&wl), expected);
    assert_eq!(canonicalize(&lw), expected);
}

#[test]
fn canonicalize_orders_all_five_metrics() {
    let mut opts: Vec<CliOptions> = Vec::new();
    add_option(CliOptions::MaxLineLength, &mut opts);
    add_option(CliOptions::CountBytes, &mut opts);
    add_option(CliOptions::CountCharacters, &mut opts);
    add_option(CliOptions::CountWords, &mut opts);
    add_option(CliOptions::CountLines, &mut opts);
    assert_eq!(
        canonicalize(&opts),
        vec![
            CliOptions::CountLines,
            CliOptions::CountWords,
            CliOptions::CountCharacters,
            CliOptions::CountBytes,
            CliOptions::MaxLineLength
        ]
    );
}
