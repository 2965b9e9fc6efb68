use wordle::{calc_letter_hist, calc_optimal_first_word, score_word, str_to_word, Word};

fn words(list: &[&str]) -> Vec<Word> {
    list.iter().map(|s| str_to_word(s).unwrap()).collect()
}

#[test]
fn histogram_counts_letters_per_slot() {
    let dict = words(&["STERN", "BARES", "SASSY"]);
    let h = calc_letter_hist(&dict);
    assert_eq!(h[0][('S' as u8 - b'A') as usize], 2);
    assert_eq!(h[0][('B' as u8 - b'A') as usize], 1);
    assert_eq!(h[1][('A' as u8 - b'A') as usize], 2);
    assert_eq!(h[4][('Y' as u8 - b'A') as usize], 1);
    assert_eq!(h[4][('Z' as u8 - b'A') as usize], 0);
    for slot in 0..5 {
        assert_eq!(h[slot].iter().sum::<u64>(), 3);
    }
}

#[test]
fn histogram_of_empty_dictionary_is_zero() {
    let h = calc_letter_hist(&[]);
    assert_eq!(h, [[0u64; 26]; 5]);
}

#[test]
fn score_sums_slot_counts() {
    let dict = words(&["STERN", "BARES", "SASSY"]);
    let h = calc_letter_hist(&dict);
    assert_eq!(score_word(dict[0], &h), 6);
    assert_eq!(score_word(dict[1], &h), 6);
}

#[test]
fn score_divides_by_repeats() {
    // 2 + 2 + 1 + 1 + 1 = 7, two repeated S, 7 / 3 = 2
    let dict = words(&["STERN", "BARES", "SASSY"]);
    let h = calc_letter_hist(&dict);
    assert_eq!(score_word(dict[2], &h), 2);
}

#[test]
fn scoring_is_reproducible() {
    let dict = words(&["STERN", "BARES", "SASSY", "CRANE"]);
    let h = calc_letter_hist(&dict);
    let stern = str_to_word("STERN").unwrap();
    let bares = str_to_word("BARES").unwrap();
    let first = (score_word(stern, &h), score_word(bares, &h));
    for _ in 0..10 {
        let h_again = calc_letter_hist(&dict);
        assert_eq!((score_word(stern, &h_again), score_word(bares, &h_again)), first);
    }
    assert_eq!(first, (6, 6));
}

#[test]
fn optimal_first_word_is_first_of_highest_score() {
    let dict = words(&["SASSY", "STERN", "BARES"]);
    assert_eq!(calc_optimal_first_word(&dict), str_to_word("STERN").unwrap());
}

#[test]
fn optimal_first_word_of_single_word() {
    let dict = words(&["CRANE"]);
    assert_eq!(calc_optimal_first_word(&dict), dict[0]);
}
