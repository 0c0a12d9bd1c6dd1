use rustbox::guessing::{
    format_scores, parse_scores, read_guess, Game, Turn, ATTEMPTS, HIGHEST, LOWEST,
};

#[test]
fn read_score_records() {
    assert_eq!(parse_scores("3,4"), (3, 4));
    assert_eq!(parse_scores(" 12 , 7 \n"), (12, 7));
    assert_eq!(parse_scores("5"), (5, 0));
    assert_eq!(parse_scores(""), (0, 0));
    assert_eq!(parse_scores("x,9"), (0, 9));
    assert_eq!(parse_scores("+2,-1"), (2, 0));
    assert_eq!(parse_scores("1,2,3"), (1, 2));
    assert_eq!(parse_scores("4294967295,4294967296"), (4294967295, 0));
}

#[test]
fn write_score_records() {
    assert_eq!(format_scores(0, 0), "0,0");
    assert_eq!(format_scores(17, 250), "17,250");
}

#[test]
fn written_scores_read_back() {
    for (p, c) in [(0, 0), (1, 99), (4294967295, 12345)] {
        assert_eq!(parse_scores(&format_scores(p, c)), (p, c));
    }
}

#[test]
fn drawn_secret_is_in_range() {
    for _ in 0..50 {
        let game = Game::new(1, 2);
        assert!(LOWEST <= game.secret() && game.secret() <= HIGHEST);
        assert_eq!(game.attempts_left(), ATTEMPTS);
        assert_eq!((game.player_score(), game.computer_score()), (1, 2));
        assert!(!game.is_over());
    }
}

#[test]
fn guesses_narrow_down_and_win() {
    let mut game = Game::with_secret(42, 0, 0);
    assert_eq!(game.guess("10"), Turn::TooSmall(4));
    assert_eq!(game.guess("abc"), Turn::Invalid);
    assert_eq!(game.attempts_left(), 4);
    assert_eq!(game.guess(" 90 \n"), Turn::TooBig(3));
    assert_eq!(game.guess("42\n"), Turn::Correct);
    assert!(game.is_over());
    assert_eq!((game.player_score(), game.computer_score()), (1, 0));
    assert_eq!(game.attempts_left(), 3);
}

#[test]
fn running_out_of_attempts() {
    let mut game = Game::with_secret(7, 3, 5);
    for left in (0..ATTEMPTS).rev() {
        assert!(!game.out_of_attempts());
        assert_eq!(game.guess("8"), Turn::TooBig(left));
    }
    assert!(game.out_of_attempts());
    assert_eq!(game.give_up(), Turn::OutOfAttempts);
    assert!(game.is_over());
    assert_eq!((game.player_score(), game.computer_score()), (3, 6));
}

#[test]
fn invalid_guesses_cost_nothing() {
    let mut game = Game::with_secret(50, 0, 0);
    for line in ["", "  ", "-5", "1.5", "+", "99999999999"] {
        assert_eq!(game.guess(line), Turn::Invalid);
    }
    assert_eq!(game.attempts_left(), ATTEMPTS);
    assert_eq!(game.guess("+50"), Turn::Correct);
}

#[test]
fn reading_a_guess() {
    assert_eq!(read_guess("42\n"), Some(42));
    assert_eq!(read_guess("\t+7  "), Some(7));
    assert_eq!(read_guess("4 2"), None);
    assert_eq!(read_guess(""), None);
    assert_eq!(read_guess("4294967296"), None);
}

#[test]
fn wrong_guess_at_the_top_score() {
    let mut game = Game::with_secret(10, u32::MAX, 0);
    assert_eq!(game.guess("5"), Turn::TooSmall(4));
    assert_eq!(game.guess("nope"), Turn::Invalid);
    assert_eq!(game.player_score(), u32::MAX);
}
