use spellbee::game::{build_solution_set, GameStatus, GuessOutcome};
use spellbee::render::{
    accepted_message, decimal_chars, duplicate_message, farewell_message, give_up_message,
    print_game, rejected_message,
};

fn render_game() -> GameStatus {
    let words: Vec<String> = vec![
        "cats".to_string(),
        "dogs".to_string(),
        "slap".to_string(),
        "pacts".to_string(),
    ];
    let pool = vec!['a', 'c', 'e', 'l', 'p', 's', 't'];
    let guessable_words = build_solution_set(&words, &pool, 'c');
    GameStatus {
        game_word: "placets".to_string(),
        game_chars: pool,
        anchor_char: 'c',
        guessable_words,
        guessed_words: Vec::new(),
    }
}

#[test]
fn decimal_digits() {
    assert_eq!(decimal_chars(0), vec!['0']);
    assert_eq!(decimal_chars(7), vec!['7']);
    assert_eq!(decimal_chars(10), vec!['1', '0']);
    assert_eq!(decimal_chars(907), vec!['9', '0', '7']);
    assert_eq!(
        decimal_chars(1234567890),
        vec!['1', '2', '3', '4', '5', '6', '7', '8', '9', '0']
    );
}

#[test]
fn board_without_guesses() {
    let game = render_game();
    let expected = "\nYour letters are:\n\n a e\nl c p\n s t\n\n\
        So far you have guessed the following 0 words out of 2 words possible:\n[]\n\n\
        Please enter your guess, exit() to exit or give_up() to end the game.";
    assert_eq!(print_game(&game), expected.to_string());
}

#[test]
fn board_after_one_guess() {
    let mut game = render_game();
    assert_eq!(game.process_guess(&"cats".to_string()), GuessOutcome::Accepted);
    let expected = "\nYour letters are:\n\n a e\nl c p\n s t\n\n\
        So far you have guessed the following 1 words out of 2 words possible:\n[\"cats\"]\n\n\
        Please enter your guess, exit() to exit or give_up() to end the game.";
    assert_eq!(print_game(&game), expected.to_string());
}

#[test]
fn rendering_is_repeatable() {
    let game = render_game();
    let first = print_game(&game);
    let second = print_game(&game);
    assert_eq!(first, second);
}

#[test]
fn farewell_text() {
    assert_eq!(
        farewell_message(),
        "\n\nThank you for playing the game! Hope to see you soon!\n\n".to_string()
    );
}

#[test]
fn guess_report_texts() {
    assert_eq!(accepted_message("cats"), "Good job! cats was one of the words!".to_string());
    assert_eq!(duplicate_message("cats"), "cats was already guessed. Try again.".to_string());
    assert_eq!(rejected_message("dogs"), "I'm sorry. dogs was not one of the words!".to_string());
}

#[test]
fn give_up_report() {
    let mut game = render_game();
    assert_eq!(game.process_guess(&"cats".to_string()), GuessOutcome::Accepted);
    let expected = "Not bad. You got 1 out of 2.\n\n \
        The complete list of words was: [\"cats\", \"pacts\"]\n";
    assert_eq!(give_up_message(&game), expected.to_string());
}
