use cmdargs::Args;

#[test]
fn test_positional_simple() {
    let r = Args::parse("a b c d e").unwrap();
    assert_eq!(r.args, vec!["a", "b", "c", "d", "e"]);
    assert!(r.kwargs.is_empty());
    assert!(r.flags.is_empty());
}

#[test]
fn test_positional_long() {
    let r = Args::parse(r#"a b "c d" e"#).unwrap();
    assert_eq!(r.args, vec!["a", "b", "c d", "e"]);
    assert!(r.kwargs.is_empty());
    assert!(r.flags.is_empty());
}

#[test]
fn test_incomplete_long() {
    assert_eq!(Args::parse("a b \"c d"), Err(()));
}

#[test]
fn test_kwargs() {
    let r = Args::parse(r#"--arg1 a --arg2 "b c""#).unwrap();
    assert_eq!(r.kwarg("arg1"), Some("a"));
    assert_eq!(r.kwarg("arg2"), Some("b c"));
    assert_eq!(r.kwargs.len(), 2);
    assert!(r.args.is_empty());
    assert!(r.flags.is_empty());
}

#[test]
fn test_incomplete_kwarg() {
    assert_eq!(Args::parse("--arg1 a --arg2"), Err(()));
}

#[test]
fn test_flags() {
    let r = Args::parse("-flag -vvv").unwrap();
    assert_eq!(r.flag_count('f'), 1);
    assert_eq!(r.flag_count('l'), 1);
    assert_eq!(r.flag_count('a'), 1);
    assert_eq!(r.flag_count('g'), 1);
    assert_eq!(r.flag_count('v'), 3);
    assert_eq!(r.flags.len(), 5);
    assert!(r.args.is_empty());
    assert!(r.kwargs.is_empty());
}

#[test]
fn test_all() {
    let r = Args::parse(r#"short "long arg" --kw1 arg -vvv"#).unwrap();
    assert_eq!(r.args, vec!["short", "long arg"]);
    assert_eq!(r.kwarg("kw1"), Some("arg"));
    assert_eq!(r.kwargs.len(), 1);
    assert_eq!(r.flag_count('v'), 3);
    assert_eq!(r.flags.len(), 1);
}
