use spellbee::game::{build_solution_set, GameError, GameStatus, GuessOutcome};
use spellbee::letters::{get_distinct_chars, is_guessable_word, is_qualifying_word};
use spellbee::words::{build_word_list, contains_word, lower_string, normalize_word, str_eq};

fn pool() -> Vec<char> {
    vec!['a', 'c', 'e', 'l', 'p', 's', 't']
}

fn make_game() -> GameStatus {
    let words: Vec<String> = vec![
        "cats".to_string(),
        "dogs".to_string(),
        "slap".to_string(),
        "pacts".to_string(),
    ];
    let pool = pool();
    let guessable_words = build_solution_set(&words, &pool, 'c');
    GameStatus {
        game_word: "placets".to_string(),
        game_chars: pool,
        anchor_char: 'c',
        guessable_words,
        guessed_words: Vec::new(),
    }
}

#[test]
fn qualifying_word_with_seven_distinct_letters() {
    assert!(is_qualifying_word("plastic"));
    assert!(is_qualifying_word("PLASTIC"));
    assert!(is_qualifying_word("placets"));
}

#[test]
fn non_qualifying_words() {
    assert!(!is_qualifying_word("cat"));
    assert!(!is_qualifying_word("banana"));
    assert!(!is_qualifying_word("pastels"));
    assert!(!is_qualifying_word("plaudits"));
    assert!(!is_qualifying_word(""));
}

#[test]
fn distinct_chars_sorted_and_lowercased() {
    assert_eq!(get_distinct_chars("PLASTIC"), vec!['a', 'c', 'i', 'l', 'p', 's', 't']);
    assert_eq!(get_distinct_chars("banana"), vec!['a', 'b', 'n']);
    assert_eq!(get_distinct_chars(""), Vec::<char>::new());
}

#[test]
fn guessable_word_rule() {
    let pool = pool();
    assert!(is_guessable_word("cats", &pool, &'c'));
    assert!(is_guessable_word("CATS", &pool, &'c'));
    assert!(!is_guessable_word("slap", &pool, &'c'));
    assert!(!is_guessable_word("dogs", &pool, &'c'));
}

#[test]
fn empty_word_is_not_guessable() {
    assert!(!is_guessable_word("", &pool(), &'c'));
}

#[test]
fn solution_set_filters_and_lowercases() {
    let words: Vec<String> = vec![
        "cats".to_string(),
        "dogs".to_string(),
        "slap".to_string(),
        "PACTS".to_string(),
    ];
    let solution = build_solution_set(&words, &pool(), 'c');
    assert_eq!(solution, vec!["cats".to_string(), "pacts".to_string()]);
}

#[test]
fn word_list_normalizes_and_drops_short_lines() {
    let lines: Vec<String> = vec![
        "  HeLLo ".to_string(),
        "ab".to_string(),
        "Cat\r".to_string(),
        "   ".to_string(),
        "plastic".to_string(),
    ];
    let words = build_word_list(&lines);
    assert_eq!(words, vec!["hello".to_string(), "cat".to_string(), "plastic".to_string()]);
}

#[test]
fn normalize_word_trims_and_lowercases() {
    assert_eq!(normalize_word("  HeLLo\r"), "hello".to_string());
    assert_eq!(normalize_word("\tAB c\n"), "ab c".to_string());
    assert_eq!(normalize_word("   "), "".to_string());
}

#[test]
fn lower_string_lowercases_ascii() {
    assert_eq!(lower_string("AbC"), "abc".to_string());
    assert_eq!(lower_string("cats"), "cats".to_string());
}

#[test]
fn string_equality_and_membership() {
    assert!(str_eq("cats", "cats"));
    assert!(!str_eq("cats", "cat"));
    assert!(!str_eq("cats", "pact"));
    let list: Vec<String> = vec!["cats".to_string(), "pacts".to_string()];
    assert!(contains_word(&list, "pacts"));
    assert!(!contains_word(&list, "dogs"));
}

#[test]
fn new_game_picks_the_only_qualifying_word() {
    let words: Vec<String> = vec![
        "plastic".to_string(),
        "cats".to_string(),
        "dogs".to_string(),
    ];
    let game = GameStatus::new_game(&words).unwrap();
    assert_eq!(game.game_word, "plastic".to_string());
    assert_eq!(game.game_chars, vec!['a', 'c', 'i', 'l', 'p', 's', 't']);
    assert!(game.game_chars.contains(&game.anchor_char));
    assert!(game.guessable_words.contains(&"plastic".to_string()));
    assert!(game.guessed_words.is_empty());
    for w in &game.guessable_words {
        assert!(is_guessable_word(w, &game.game_chars, &game.anchor_char));
    }
}

#[test]
fn new_game_fails_without_qualifying_words() {
    let words: Vec<String> = vec!["cat".to_string(), "dog".to_string()];
    let result = GameStatus::new_game(&words);
    assert!(matches!(result, Err(GameError::NoQualifyingWords)));
}

#[test]
fn scenario_round_with_anchor_c() {
    let mut game = make_game();
    assert_eq!(game.process_guess(&"cats".to_string()), GuessOutcome::Accepted);
    assert_eq!(game.guessed_words, vec!["cats".to_string()]);
    assert_eq!(game.process_guess(&"cats".to_string()), GuessOutcome::Duplicate);
    assert_eq!(game.guessed_words, vec!["cats".to_string()]);
    assert_eq!(game.process_guess(&"dogs".to_string()), GuessOutcome::Rejected);
    assert_eq!(game.guessed_words, vec!["cats".to_string()]);
    assert_eq!(game.process_guess(&"slap".to_string()), GuessOutcome::Rejected);
    assert_eq!(game.guessed_words, vec!["cats".to_string()]);
    assert_eq!(game.process_guess(&"exit()".to_string()), GuessOutcome::Exit);
    assert_eq!(game.guessed_words, vec!["cats".to_string()]);
}

#[test]
fn rejected_guess_is_idempotent() {
    let mut game = make_game();
    assert_eq!(game.process_guess(&"dogs".to_string()), GuessOutcome::Rejected);
    assert!(game.guessed_words.is_empty());
    assert_eq!(game.process_guess(&"dogs".to_string()), GuessOutcome::Rejected);
    assert!(game.guessed_words.is_empty());
}

#[test]
fn valid_word_accepted_exactly_once() {
    let mut game = make_game();
    assert_eq!(game.process_guess(&"pacts".to_string()), GuessOutcome::Accepted);
    assert_eq!(game.process_guess(&"pacts".to_string()), GuessOutcome::Duplicate);
    let count = game.guessed_words.iter().filter(|w| w.as_str() == "pacts").count();
    assert_eq!(count, 1);
}

#[test]
fn give_up_changes_nothing() {
    let mut game = make_game();
    assert_eq!(game.process_guess(&"give_up()".to_string()), GuessOutcome::GiveUp);
    assert!(game.guessed_words.is_empty());
    assert_eq!(game.guessable_words, vec!["cats".to_string(), "pacts".to_string()]);
}
