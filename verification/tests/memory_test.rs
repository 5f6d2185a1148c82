use co_worker_lite::memory::{
    count_inserted, extract_facts, store_outcome, take_proper_noun, StoreOutcome,
};

#[test]
fn extracts_my_name_is() {
    let facts = extract_facts("Hi, my name is Rimon and I'm new here.");
    assert!(facts.iter().any(|f| f.contains("Rimon")));
}

#[test]
fn extracts_lowercase_name() {
    let facts = extract_facts("my name is rimon");
    assert!(
        facts.iter().any(|f| f.contains("rimon")),
        "expected lowercase name capture, got: {facts:?}"
    );
}

#[test]
fn extracts_im_pattern() {
    let facts = extract_facts("hey i'm Alice");
    assert!(facts.iter().any(|f| f.contains("Alice")));
}

#[test]
fn strips_trailing_punctuation() {
    // Input "Bob." should produce "...Bob." with exactly one period, not
    // "...Bob.." — i.e. the trailing punctuation was stripped from the
    // captured value before the format string added its own period.
    let facts = extract_facts("my name is Bob.");
    assert!(facts.iter().any(|f| f.contains("Bob") && !f.contains("Bob..")));
}

#[test]
fn empty_on_no_match() {
    let facts = extract_facts("what is the weather like");
    assert!(facts.is_empty());
}

#[test]
fn no_double_name_fact() {
    // Both "my name is" and "i am" would match, but we stop after one.
    let facts = extract_facts("my name is Rimon and i am Rimon");
    let name_facts: Vec<_> = facts.iter().filter(|f| f.contains("name is")).collect();
    assert_eq!(name_facts.len(), 1);
}

#[test]
fn facts_keep_the_case_of_the_source() {
    assert_eq!(
        extract_facts("MY NAME IS McGregor, I live in Oslo and i work at ACME!"),
        vec![
            "The user's name is McGregor.",
            "The user is from Oslo.",
            "The user works at ACME.",
        ]
    );
}

#[test]
fn facts_after_wide_characters_start_where_they_should() {
    // The dotted capital I folds to two characters.
    assert_eq!(extract_facts("\u{130}\u{130} my name is Ada"), vec!["The user's name is Ada."]);
    assert_eq!(extract_facts("\u{c9}TUDE: I AM \u{c9}lodie"), vec!["The user's name is \u{c9}lodie."]);
}

#[test]
fn the_first_capitalized_word_is_taken() {
    assert_eq!(take_proper_noun("called Bob or Rob"), Some("Bob".to_string()));
    assert_eq!(take_proper_noun("  called bob"), Some("called".to_string()));
    assert_eq!(take_proper_noun("The end"), None);
    assert_eq!(take_proper_noun("?! x"), None);
    assert_eq!(take_proper_noun("   "), None);
    assert_eq!(take_proper_noun(&"x".repeat(64)), Some("x".repeat(64)));
    assert_eq!(take_proper_noun(&"x".repeat(65)), None);
    assert_eq!(take_proper_noun(&"\u{e9}".repeat(33)), None);
}

#[test]
fn a_filler_moves_on_to_the_next_pattern() {
    assert_eq!(
        extract_facts("i'm not sure but call me Eve"),
        vec!["The user's name is Eve."]
    );
    assert_eq!(extract_facts("i'm a pilot. i am no one"), Vec::<String>::new());
}

#[test]
fn only_new_facts_count() {
    assert_eq!(
        count_inserted(&vec![
            StoreOutcome::Inserted,
            StoreOutcome::Existing,
            StoreOutcome::Failed,
            StoreOutcome::Inserted,
        ]),
        2
    );
}

#[test]
fn inserted_rows_tell_what_is_new() {
    assert_eq!(store_outcome(1), StoreOutcome::Inserted);
    assert_eq!(store_outcome(0), StoreOutcome::Existing);
    assert_eq!(count_inserted(&vec![store_outcome(0), store_outcome(0)]), 0);
}
