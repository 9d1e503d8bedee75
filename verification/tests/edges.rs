use cmdargs::Args;

#[test]
fn empty_input_is_default() {
    assert_eq!(Args::parse(""), Ok(Args::default()));
}

#[test]
fn whitespace_only_is_default() {
    assert_eq!(Args::parse(" \t\r\n  "), Ok(Args::default()));
}

#[test]
fn reparse_agrees() {
    let input = r#"short "long arg" --kw1 arg -vvv"#;
    assert_eq!(Args::parse(input), Args::parse(input));
}

#[test]
fn empty_quotes_give_empty_argument() {
    let r = Args::parse("\"\"").unwrap();
    assert_eq!(r.args, vec![""]);
    assert!(r.kwargs.is_empty());
    assert!(r.flags.is_empty());
}

#[test]
fn quote_ends_a_bare_word() {
    let r = Args::parse("ab\"cd\"").unwrap();
    assert_eq!(r.args, vec!["ab", "cd"]);
}

#[test]
fn quoted_text_keeps_dashes_and_spaces() {
    let r = Args::parse("\"-v --x\"").unwrap();
    assert_eq!(r.args, vec!["-v --x"]);
    assert!(r.kwargs.is_empty());
    assert!(r.flags.is_empty());
}

#[test]
fn unterminated_quote_at_start_fails() {
    assert_eq!(Args::parse("\"abc"), Err(()));
}

#[test]
fn lone_dash_fails() {
    assert_eq!(Args::parse("-"), Err(()));
}

#[test]
fn lone_double_dash_fails() {
    assert_eq!(Args::parse("--"), Err(()));
}

#[test]
fn non_ascii_flag_fails() {
    assert_eq!(Args::parse("-é"), Err(()));
}

#[test]
fn dash_ends_a_bare_word() {
    let r = Args::parse("a-b").unwrap();
    assert_eq!(r.args, vec!["a"]);
    assert_eq!(r.flag_count('b'), 1);
    assert_eq!(r.flags.len(), 1);
}

#[test]
fn long_flag_followed_by_flags_fails() {
    assert_eq!(Args::parse("--a -v"), Err(()));
}

#[test]
fn long_flag_followed_by_long_flag_fails() {
    assert_eq!(Args::parse("--a --b"), Err(()));
}

#[test]
fn repeated_long_flag_last_wins() {
    let r = Args::parse("--a 1 --a 2").unwrap();
    assert_eq!(r.kwarg("a"), Some("2"));
    assert_eq!(r.kwargs.len(), 1);
}

#[test]
fn absent_lookups() {
    let r = Args::parse("x --a 1 -v").unwrap();
    assert_eq!(r.kwarg("b"), None);
    assert_eq!(r.flag_count('w'), 0);
}

#[test]
fn counts_accumulate_across_many_clusters() {
    let mut input = String::new();
    for _ in 0..150 {
        input.push_str("-vv ");
    }
    let r = Args::parse(&input).unwrap();
    assert_eq!(r.flag_count('v'), 300);
    assert_eq!(r.flags.len(), 1);
}

#[test]
fn words_may_hold_any_unicode() {
    let r = Args::parse("héllo wörld").unwrap();
    assert_eq!(r.args, vec!["héllo", "wörld"]);
}

#[test]
fn long_flag_value_may_abut_the_name() {
    let r = Args::parse("--a\"x y\"").unwrap();
    assert_eq!(r.kwarg("a"), Some("x y"));
    assert_eq!(r.kwargs.len(), 1);
}
