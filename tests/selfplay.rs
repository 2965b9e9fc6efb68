use wordle::{play_against_self, str_to_word, GameResult, PlayStats, Word};

fn words(list: &[&str]) -> Vec<Word> {
    list.iter().map(|s| str_to_word(s).unwrap()).collect()
}

#[test]
fn self_play_wins_on_small_dictionary() {
    let d = words(&["CRANE", "SLATE", "PANIC", "MANIC", "TONIC", "SASSY", "BARES", "STERN"]);
    let expected = [2, 2, 2, 1, 2, 3, 2, 2];
    for (i, &secret) in d.iter().enumerate() {
        assert_eq!(play_against_self(&d, secret), Some(GameResult::Win(expected[i])));
    }
}

#[test]
fn self_play_ends_within_six_attempts() {
    let d = words(&["BATCH", "CATCH", "HATCH", "LATCH", "MATCH", "PATCH", "WATCH", "NATCH"]);
    for &secret in &d {
        match play_against_self(&d, secret) {
            Some(GameResult::Win(n)) => assert!((1..=6).contains(&n)),
            Some(GameResult::Loss) => {}
            other => panic!("unexpected {:?}", other),
        }
    }
    assert_eq!(play_against_self(&d, d[0]), Some(GameResult::Win(6)));
    assert_eq!(play_against_self(&d, d[1]), Some(GameResult::Loss));
    assert_eq!(play_against_self(&d, d[7]), Some(GameResult::Win(1)));
}

#[test]
fn self_play_exhausts_when_secret_is_unknown() {
    let d = words(&["CRANE", "SLATE", "PANIC", "MANIC", "TONIC", "SASSY", "BARES", "STERN"]);
    assert_eq!(play_against_self(&d, str_to_word("QUACK").unwrap()), None);
}

#[test]
fn self_play_on_single_word() {
    let d = words(&["CRANE"]);
    assert_eq!(play_against_self(&d, d[0]), Some(GameResult::Win(1)));
}

#[test]
fn self_play_on_empty_dictionary_exhausts() {
    assert_eq!(play_against_self(&[], str_to_word("CRANE").unwrap()), None);
}

#[test]
fn stats_tally_results() {
    let mut stats = PlayStats::new();
    stats.record(Some(GameResult::Win(2)));
    stats.record(Some(GameResult::Win(2)));
    stats.record(Some(GameResult::Win(6)));
    stats.record(Some(GameResult::Loss));
    stats.record(None);
    stats.record(Some(GameResult::Miss([wordle::LetterResult::Correct; 5])));
    assert_eq!(stats.wins, 3);
    assert_eq!(stats.losses, 1);
    assert_eq!(stats.exhausts, 1);
    assert_eq!(stats.attempt_hist, [0, 2, 0, 0, 0, 1]);
}
