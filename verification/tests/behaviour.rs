use name_formatter::cli::{join_inputs, parse_args, parse_usize};
use name_formatter::normalize::{
    clean, count_entries, dedup_preserve_order, is_plausible_name, normalize_entry, sort_entries,
    split_entries,
};
use name_formatter::sample::{weighted_sample, Rng, CLOCK_FALLBACK_SEED};

fn strings(items: &[&str]) -> Vec<String> {
    items.iter().map(|s| s.to_string()).collect()
}

#[test]
fn split_keeps_empty_pieces_between_adjacent_separators() {
    assert_eq!(split_entries("a,,b"), strings(&["a", "", "b"]));
    assert_eq!(split_entries(""), strings(&[""]));
}

#[test]
fn split_yields_one_more_piece_than_separators() {
    let parts = split_entries(",;\t\r\n");
    assert_eq!(parts.len(), 6);
    assert!(parts.iter().all(|p| p.is_empty()));
}

#[test]
fn split_pieces_hold_no_separator() {
    let parts = split_entries("Ann Lee;Bo\r\nCy,\tDee");
    assert_eq!(parts, strings(&["Ann Lee", "Bo", "", "Cy", "", "Dee"]));
    for p in &parts {
        assert!(!p.contains(|c| matches!(c, '\n' | '\r' | ',' | ';' | '\t')));
    }
}

#[test]
fn blank_and_quote_only_entries_normalize_to_nothing() {
    assert_eq!(normalize_entry(""), None);
    assert_eq!(normalize_entry("   \t "), None);
    assert_eq!(normalize_entry("\"'\""), None);
}

#[test]
fn any_mix_of_surrounding_whitespace_and_quotes_is_trimmed() {
    assert_eq!(normalize_entry("' \" '"), None);
    assert_eq!(normalize_entry(" \" ' \" "), None);
    assert_eq!(normalize_entry("\" 'x' \""), Some("X".to_string()));
    assert_eq!(normalize_entry("' \"o'brien\" '"), Some("O'Brien".to_string()));
    assert_eq!(normalize_entry("\"ann \"bo\" cy\""), Some("Ann \"bo\" Cy".to_string()));
}

#[test]
fn strips_quotes_and_collapses_inner_whitespace() {
    assert_eq!(normalize_entry("  \"mary\"  "), Some("Mary".to_string()));
    assert_eq!(normalize_entry("mary\t\u{a0} jane"), Some("Mary Jane".to_string()));
    assert_eq!(normalize_entry("'anne  marie'"), Some("Anne Marie".to_string()));
}

#[test]
fn title_cases_every_segment_of_a_word() {
    assert_eq!(normalize_entry("MCDONALD-SMITH"), Some("McDonald-Smith".to_string()));
    assert_eq!(normalize_entry("o'mcguire"), Some("O'McGuire".to_string()));
    assert_eq!(normalize_entry("jean--paul"), Some("Jean--Paul".to_string()));
    assert_eq!(normalize_entry("-x"), Some("-X".to_string()));
    assert_eq!(normalize_entry("mc"), Some("Mc".to_string()));
    assert_eq!(normalize_entry("macdonald"), Some("MacDonald".to_string()));
}

#[test]
fn uppercasing_may_change_the_length() {
    // 'ß' uppercases to "SS".
    assert_eq!(normalize_entry("ßtrasse"), Some("SStrasse".to_string()));
    assert_eq!(normalize_entry("ÉMILE zola"), Some("Émile Zola".to_string()));
}

#[test]
fn plausible_names_need_a_letter_and_only_name_characters() {
    assert!(!is_plausible_name(""));
    assert!(!is_plausible_name("..."));
    assert!(!is_plausible_name("a_b"));
    assert!(is_plausible_name("J. R. R."));
    assert!(is_plausible_name("Émile"));
    assert!(is_plausible_name("O'Brien-Smith"));
}

#[test]
fn counting_nothing_gives_nothing() {
    assert_eq!(count_entries(Vec::new()), Vec::<(String, usize)>::new());
}

#[test]
fn counts_sum_to_the_number_of_entries_and_names_are_distinct() {
    let input = strings(&["Zoe", "zoe", "Ann", "ZOE", "ann", "Bo"]);
    let counted = count_entries(input.clone());
    assert_eq!(
        counted,
        vec![("Zoe".to_string(), 3), ("Ann".to_string(), 2), ("Bo".to_string(), 1)]
    );
    let total: usize = counted.iter().map(|(_, c)| *c).sum();
    assert_eq!(total, input.len());
}

#[test]
fn dedup_twice_is_dedup_once() {
    let input = strings(&["b", "A", "B", "a", "c"]);
    let once = dedup_preserve_order(input);
    assert_eq!(once, strings(&["b", "A", "c"]));
    assert_eq!(dedup_preserve_order(once.clone()), once);
}

#[test]
fn sort_breaks_case_ties_by_exact_characters() {
    let mut entries = strings(&["b", "B", "a"]);
    sort_entries(&mut entries);
    assert_eq!(entries, strings(&["a", "B", "b"]));
}

#[test]
fn sort_result_does_not_depend_on_input_order() {
    let mut first = strings(&["carol", "Bob", "alice", "bob", "Alice"]);
    let mut second = strings(&["bob", "Alice", "carol", "alice", "Bob"]);
    sort_entries(&mut first);
    sort_entries(&mut second);
    assert_eq!(first, second);
    assert_eq!(first, strings(&["Alice", "alice", "Bob", "bob", "carol"]));
}

#[test]
fn sort_of_nothing_is_nothing() {
    let mut entries: Vec<String> = Vec::new();
    sort_entries(&mut entries);
    assert!(entries.is_empty());
}

#[test]
fn clean_of_junk_is_empty() {
    assert_eq!(clean(""), Vec::<(String, usize)>::new());
    assert_eq!(clean("007\n\n , 42;"), Vec::<(String, usize)>::new());
}

#[test]
fn clean_counts_across_delimiters() {
    assert_eq!(
        clean("ann;ANN\tbo\r\n'ann'"),
        vec![("Ann".to_string(), 3), ("Bo".to_string(), 1)]
    );
}

#[test]
fn zero_total_weight_draws_nothing() {
    let weighted = vec![("Ann".to_string(), 0), ("Bo".to_string(), 0)];
    let mut rng = Rng::from_seed(5);
    assert!(weighted_sample(&weighted, 10, &mut rng).is_empty());
}

#[test]
fn zero_weight_entries_are_never_drawn() {
    let weighted = vec![
        ("Never".to_string(), 0),
        ("Ann".to_string(), 3),
        ("Nope".to_string(), 0),
        ("Bo".to_string(), 1),
    ];
    let mut rng = Rng::from_seed(11);
    let picks = weighted_sample(&weighted, 500, &mut rng);
    assert_eq!(picks.len(), 500);
    assert!(picks.iter().all(|p| p == "Ann" || p == "Bo"));
}

#[test]
fn zero_seed_is_moved_off_zero() {
    let weighted = vec![("A".to_string(), 1), ("B".to_string(), 1), ("C".to_string(), 1)];
    let mut zero = Rng::from_seed(0);
    let mut nudged = Rng::from_seed(0x2545F4914F6CDD1D);
    let a = weighted_sample(&weighted, 50, &mut zero);
    let b = weighted_sample(&weighted, 50, &mut nudged);
    assert_eq!(a, b);
    assert!(a.iter().any(|p| p != "A"));
}

#[test]
fn clock_reading_seeds_the_generator() {
    let weighted = vec![("A".to_string(), 1), ("B".to_string(), 2)];
    let mut from_clock = Rng::from_clock(Some((1u128 << 64) + 77));
    let mut from_seed = Rng::from_seed(77);
    assert_eq!(
        weighted_sample(&weighted, 30, &mut from_clock),
        weighted_sample(&weighted, 30, &mut from_seed)
    );
    let mut fallback = Rng::from_clock(None);
    let mut fixed = Rng::from_seed(CLOCK_FALLBACK_SEED);
    assert_eq!(
        weighted_sample(&weighted, 30, &mut fallback),
        weighted_sample(&weighted, 30, &mut fixed)
    );
}

#[test]
fn entropy_seeded_generator_draws() {
    let weighted = vec![("A".to_string(), 1)];
    let mut rng = Rng::from_entropy();
    assert_eq!(weighted_sample(&weighted, 3, &mut rng), strings(&["A", "A", "A"]));
}

#[test]
fn generator_state_carries_over_between_calls() {
    let weighted = vec![("A".to_string(), 1), ("B".to_string(), 1)];
    let mut split = Rng::from_seed(9);
    let mut first = weighted_sample(&weighted, 7, &mut split);
    first.extend(weighted_sample(&weighted, 5, &mut split));
    let mut whole = Rng::from_seed(9);
    assert_eq!(first, weighted_sample(&weighted, 12, &mut whole));
}

/// The draw computed with `f64` arithmetic, step by step.
fn float_draws(weighted: &[(String, usize)], count: usize, seed: u64) -> Vec<String> {
    let mut state = if seed == 0 { 0x2545F4914F6CDD1D } else { seed };
    let total: usize = weighted.iter().map(|(_, w)| *w).sum();
    let mut out = Vec::new();
    if total == 0 {
        return out;
    }
    for _ in 0..count {
        let mut x = state;
        x ^= x >> 12;
        x ^= x << 25;
        x ^= x >> 27;
        state = x;
        let r = x.wrapping_mul(0x2545F4914F6CDD1D);
        let f = (r >> 11) as f64 * (1.0 / (1u64 << 53) as f64);
        let target = ((f * total as f64) as usize).min(total - 1);
        let mut cumulative = 0usize;
        for (name, weight) in weighted {
            cumulative += weight;
            if target < cumulative {
                out.push(name.clone());
                break;
            }
        }
    }
    out
}

#[test]
fn integer_scaling_matches_floating_point_scaling() {
    let shapes: Vec<Vec<usize>> = vec![
        vec![1],
        vec![99, 1],
        vec![3, 0, 5, 7],
        vec![1 << 40, 3, (1 << 41) + 12345],
        vec![(1 << 53) + 1, 1, 7],
        vec![usize::MAX / 2, usize::MAX / 3, 5],
        vec![usize::MAX - 10, 10],
        vec![usize::MAX],
    ];
    for (n, weights) in shapes.iter().enumerate() {
        let weighted: Vec<(String, usize)> =
            weights.iter().enumerate().map(|(i, w)| (format!("n{i}"), *w)).collect();
        for seed in [0u64, 1, 2, 7, 42, 123, 0xdead_beef, u64::MAX, 1 << 63] {
            let mut rng = Rng::from_seed(seed);
            let ours = weighted_sample(&weighted, 200, &mut rng);
            assert_eq!(ours, float_draws(&weighted, 200, seed), "shape {n}, seed {seed}");
        }
    }
}

#[test]
fn sample_count_parsing_follows_usize_from_str() {
    assert_eq!(parse_usize("0"), Some(0));
    assert_eq!(parse_usize("+7"), Some(7));
    assert_eq!(parse_usize("007"), Some(7));
    assert_eq!(parse_usize(&usize::MAX.to_string()), Some(usize::MAX));
    for bad in ["", "+", "-1", " 5", "5 ", "1_000", "12a", "99999999999999999999999"] {
        assert_eq!(parse_usize(bad), bad.parse::<usize>().ok(), "{bad:?}");
        assert_eq!(parse_usize(bad), None);
    }
}

#[test]
fn sample_errors_name_the_problem() {
    match parse_args(&strings(&["--sample"])) {
        Err(e) => assert_eq!(e, "--sample requires a number of names to draw"),
        Ok(_) => panic!("expected an error"),
    }
    match parse_args(&strings(&["a.txt", "--sample", "-1", "--sort"])) {
        Err(e) => assert_eq!(e, "--sample requires a number, got: -1"),
        Ok(_) => panic!("expected an error"),
    }
}

#[test]
fn later_sample_flag_wins_and_sort_may_repeat() {
    let opts = parse_args(&strings(&["--sample", "1", "x", "--sort", "--sample", "2", "--sort"])).unwrap();
    assert_eq!(opts.sample, Some(2));
    assert!(opts.sort);
    assert_eq!(opts.paths, strings(&["x"]));
}

#[test]
fn dash_and_flags_as_sample_values() {
    let opts = parse_args(&strings(&["-", "b.txt"])).unwrap();
    assert_eq!(opts.paths, strings(&["-", "b.txt"]));
    assert!(parse_args(&strings(&["--sample", "--sort"])).is_err());
}

#[test]
fn joins_inputs_with_newlines_where_needed() {
    assert_eq!(join_inputs(&strings(&["Alice\nBob", "Carol\n"])), "Alice\nBob\nCarol\n");
    assert_eq!(join_inputs(&strings(&["a\n", "b"])), "a\nb");
    assert_eq!(join_inputs(&strings(&["", "x"])), "x");
    assert_eq!(join_inputs(&strings(&["a", "", "b"])), "a\nb");
    assert_eq!(join_inputs(&Vec::new()), "");
}

#[test]
fn large_lists_are_counted_and_sorted() {
    let n = 60_000usize;
    let input: Vec<String> = (0..n)
        .map(|i| {
            let base = format!("name{}", i % 20_000);
            if i % 2 == 0 { base.to_uppercase() } else { base }
        })
        .collect();
    let counted = count_entries(input);
    assert_eq!(counted.len(), 20_000);
    assert!(counted.iter().all(|(_, c)| *c == 3));
    let mut names: Vec<String> = counted.into_iter().map(|(name, _)| name).collect();
    sort_entries(&mut names);
    for pair in names.windows(2) {
        assert!(pair[0].to_lowercase() <= pair[1].to_lowercase());
    }
}

#[test]
fn whitespace_around_and_between_words_never_matters() {
    let expected = Some("Mary Anne O'Brien".to_string());
    assert_eq!(normalize_entry("mary anne o'brien"), expected);
    assert_eq!(normalize_entry("  mary \u{a0}\u{2003} anne\u{3000}o'brien \u{85}"), expected);
    assert_eq!(normalize_entry(" \"mary   anne\to'brien\" "), expected);
    assert_eq!(normalize_entry("\u{2028}'\u{a0}mary anne o'brien '\u{2029}"), expected);
}

#[test]
fn entries_with_any_ascii_digit_are_rejected() {
    for d in '0'..='9' {
        assert!(!is_plausible_name(&format!("Mary{}", d)));
        assert!(!is_plausible_name(&format!("{} Ann", d)));
    }
    assert!(is_plausible_name("Mary Ann"));
}

#[test]
fn whitespace_characters_are_exactly_the_unicode_set() {
    let listed = [
        '\u{9}', '\u{a}', '\u{b}', '\u{c}', '\u{d}', ' ', '\u{85}', '\u{a0}', '\u{1680}', '\u{2000}',
        '\u{2005}', '\u{200a}', '\u{2028}', '\u{2029}', '\u{202f}', '\u{205f}', '\u{3000}',
    ];
    for c in listed {
        assert_eq!(normalize_entry(&format!("ann{}bo", c)), Some("Ann Bo".to_string()));
    }
    for c in ['\u{200b}', '\u{180e}', '\u{feff}', '_'] {
        assert_ne!(normalize_entry(&format!("ann{}bo", c)), Some("Ann Bo".to_string()));
    }
}

#[test]
fn entries_differing_only_in_case_normalize_alike() {
    let expected = Some("Mary-Jane O'McDonald".to_string());
    assert_eq!(normalize_entry("mary-jane o'mcdonald"), expected);
    assert_eq!(normalize_entry("MARY-JANE O'MCDONALD"), expected);
    assert_eq!(normalize_entry("mArY-jAnE o'McDoNaLd"), expected);
}
