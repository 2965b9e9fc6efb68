use wordle::LetterResult as Lr;
use wordle::{result_from_codes, result_from_marks, str_to_word};

#[test]
fn marks_map_letters_to_slots() {
    let crane = str_to_word("CRANE").unwrap();
    assert_eq!(
        result_from_marks(crane, "ra", "c"),
        [Lr::Correct, Lr::Misplaced, Lr::Misplaced, Lr::NonMember, Lr::NonMember]
    );
}

#[test]
fn correct_mark_wins_over_misplaced() {
    let eerie = str_to_word("EERIE").unwrap();
    assert_eq!(
        result_from_marks(eerie, "E", "e"),
        [Lr::Correct, Lr::Correct, Lr::NonMember, Lr::NonMember, Lr::Correct]
    );
}

#[test]
fn empty_marks_are_all_non_member() {
    let crane = str_to_word("CRANE").unwrap();
    assert_eq!(result_from_marks(crane, "", ""), [Lr::NonMember; 5]);
}

#[test]
fn codes_map_to_verdicts() {
    assert_eq!(
        result_from_codes("gy.yx"),
        Some([Lr::Correct, Lr::Misplaced, Lr::NonMember, Lr::Misplaced, Lr::NonMember])
    );
    assert_eq!(result_from_codes("ggggg"), Some([Lr::Correct; 5]));
}

#[test]
fn codes_need_one_per_slot() {
    assert_eq!(result_from_codes("gyg"), None);
    assert_eq!(result_from_codes("gygygy"), None);
    assert_eq!(result_from_codes(""), None);
}
