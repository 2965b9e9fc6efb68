use wordle::LetterResult as Lr;
use wordle::{str_to_word, Game, GameResult};

#[test]
fn lib_test_game() {
    let word = str_to_word("panic").unwrap();
    let mut game = Game::new(word);
    let attempt = |game: &mut Game, s: &str| game.attempt(str_to_word(s).unwrap()).unwrap();
    assert_eq!(
        attempt(&mut game, "fovea"),
        GameResult::Miss([
            Lr::NonMember,
            Lr::NonMember,
            Lr::NonMember,
            Lr::NonMember,
            Lr::Misplaced,
        ])
    );
    assert_eq!(
        attempt(&mut game, "grads"),
        GameResult::Miss([
            Lr::NonMember,
            Lr::NonMember,
            Lr::Misplaced,
            Lr::NonMember,
            Lr::NonMember,
        ])
    );
    assert_eq!(
        attempt(&mut game, "quack"),
        GameResult::Miss([
            Lr::NonMember,
            Lr::NonMember,
            Lr::Misplaced,
            Lr::Misplaced,
            Lr::NonMember,
        ])
    );
    assert_eq!(
        attempt(&mut game, "tacit"),
        GameResult::Miss([
            Lr::NonMember,
            Lr::Correct,
            Lr::Misplaced,
            Lr::Correct,
            Lr::NonMember,
        ])
    );
    assert_eq!(
        attempt(&mut game, "manic"),
        GameResult::Miss([
            Lr::NonMember,
            Lr::Correct,
            Lr::Correct,
            Lr::Correct,
            Lr::Correct,
        ])
    );
    let mut game_fork = game.clone();
    assert_eq!(attempt(&mut game, "panic"), GameResult::Win(6));

    assert_eq!(attempt(&mut game_fork, "binks"), GameResult::Loss);
}

#[test]
fn main_test_game() {
    let word = str_to_word("panic").unwrap();
    let mut game = Game::new(word);
    let attempt = |game: &mut Game, s: &str| game.attempt(str_to_word(s).unwrap()).unwrap();
    assert_eq!(
        attempt(&mut game, "fovea"),
        GameResult::Miss([
            Lr::NonMember,
            Lr::NonMember,
            Lr::NonMember,
            Lr::NonMember,
            Lr::Misplaced,
        ])
    );
    assert_eq!(
        attempt(&mut game, "grads"),
        GameResult::Miss([
            Lr::NonMember,
            Lr::NonMember,
            Lr::Misplaced,
            Lr::NonMember,
            Lr::NonMember,
        ])
    );
    assert_eq!(
        attempt(&mut game, "quack"),
        GameResult::Miss([
            Lr::NonMember,
            Lr::NonMember,
            Lr::Misplaced,
            Lr::Misplaced,
            Lr::NonMember,
        ])
    );
    assert_eq!(
        attempt(&mut game, "tacit"),
        GameResult::Miss([
            Lr::NonMember,
            Lr::Correct,
            Lr::Misplaced,
            Lr::Correct,
            Lr::NonMember,
        ])
    );
    assert_eq!(
        attempt(&mut game, "manic"),
        GameResult::Miss([
            Lr::NonMember,
            Lr::Correct,
            Lr::Correct,
            Lr::Correct,
            Lr::Correct,
        ])
    );
    let mut game_fork = game.clone();
    assert_eq!(attempt(&mut game, "panic"), GameResult::Win(6));

    assert_eq!(attempt(&mut game_fork, "binks"), GameResult::Loss);
}
