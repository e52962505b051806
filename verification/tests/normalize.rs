use name_formatter::normalize::{
    count_entries, dedup_preserve_order, is_plausible_name, normalize_entry, sort_entries,
    split_entries,
};

#[test]
fn splits_mixed_delimiters() {
    let raw = "Alice,Bob;  Carol\nDave\tEve";
    let parts = split_entries(raw);
    assert_eq!(parts.len(), 5);
}

#[test]
fn normalizes_case_and_whitespace() {
    assert_eq!(
        normalize_entry("  mARY   jane  "),
        Some("Mary Jane".to_string())
    );
}

#[test]
fn title_cases_hyphens_and_apostrophes() {
    assert_eq!(normalize_entry("o'brien"), Some("O'Brien".to_string()));
    assert_eq!(
        normalize_entry("anne-marie"),
        Some("Anne-Marie".to_string())
    );
}

#[test]
fn title_cases_known_mc_and_mac_surnames() {
    assert_eq!(normalize_entry("mcdonald"), Some("McDonald".to_string()));
    assert_eq!(normalize_entry("MACKENZIE"), Some("MacKenzie".to_string()));
    assert_eq!(
        normalize_entry("mary mcguire"),
        Some("Mary McGuire".to_string())
    );
}

#[test]
fn leaves_unknown_mac_names_plain() {
    assert_eq!(normalize_entry("mack"), Some("Mack".to_string()));
    assert_eq!(normalize_entry("macy"), Some("Macy".to_string()));
}

#[test]
fn rejects_entries_with_digits() {
    assert!(!is_plausible_name("Agent007"));
    assert!(is_plausible_name("Jean-Paul"));
}

#[test]
fn counts_case_insensitive_occurrences() {
    let input = vec![
        "Alice".to_string(),
        "Bob".to_string(),
        "alice".to_string(),
        "ALICE".to_string(),
    ];
    assert_eq!(
        count_entries(input),
        vec![("Alice".to_string(), 3), ("Bob".to_string(), 1)]
    );
}

#[test]
fn dedup_is_case_insensitive_and_stable() {
    let input = vec!["Alice".to_string(), "alice".to_string(), "Bob".to_string()];
    assert_eq!(
        dedup_preserve_order(input),
        vec!["Alice".to_string(), "Bob".to_string()]
    );
}

#[test]
fn sorts_case_insensitively() {
    let mut entries = vec![
        "bob".to_string(),
        "Alice".to_string(),
        "carol".to_string(),
    ];
    sort_entries(&mut entries);
    assert_eq!(
        entries,
        vec!["Alice".to_string(), "bob".to_string(), "carol".to_string()]
    );
}
