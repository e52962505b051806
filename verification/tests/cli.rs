use name_formatter::cli::parse_args;
use name_formatter::normalize::clean;

#[test]
fn cleans_a_messy_blob() {
    let raw = "  mary jane , MARY JANE\nBob O'brien\n007\n\n";
    let result = clean(raw);
    assert_eq!(
        result,
        vec![("Mary Jane".to_string(), 2), ("Bob O'Brien".to_string(), 1)]
    );
}

#[test]
fn parses_sort_flag_in_any_position() {
    let opts = parse_args(&["--sort".to_string(), "names.txt".to_string()]).unwrap();
    assert!(opts.sort);
    assert_eq!(opts.paths, vec!["names.txt".to_string()]);

    let opts = parse_args(&["names.txt".to_string(), "--sort".to_string()]).unwrap();
    assert!(opts.sort);
    assert_eq!(opts.paths, vec!["names.txt".to_string()]);
}

#[test]
fn parses_no_args_as_stdin_without_sort() {
    let opts = parse_args(&[]).unwrap();
    assert!(!opts.sort);
    assert!(opts.paths.is_empty());
    assert_eq!(opts.sample, None);
}

#[test]
fn parses_multiple_positional_arguments_as_paths() {
    let opts = parse_args(&["a.txt".to_string(), "b.txt".to_string()]).unwrap();
    assert_eq!(opts.paths, vec!["a.txt".to_string(), "b.txt".to_string()]);
}

#[test]
fn parses_sample_flag_with_count() {
    let opts = parse_args(&["--sample".to_string(), "5".to_string()]).unwrap();
    assert_eq!(opts.sample, Some(5));

    let opts = parse_args(&[
        "names.txt".to_string(),
        "--sample".to_string(),
        "3".to_string(),
    ])
    .unwrap();
    assert_eq!(opts.sample, Some(3));
    assert_eq!(opts.paths, vec!["names.txt".to_string()]);
}

#[test]
fn rejects_sample_without_a_number() {
    assert!(parse_args(&["--sample".to_string()]).is_err());
    assert!(parse_args(&["--sample".to_string(), "abc".to_string()]).is_err());
}
