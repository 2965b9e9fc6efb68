use wordle::LetterResult as Lr;
use wordle::{str_to_word, Game, GameResult, Solver, Word};

fn words(list: &[&str]) -> Vec<Word> {
    list.iter().map(|s| str_to_word(s).unwrap()).collect()
}

fn dict() -> Vec<Word> {
    words(&["CRANE", "SLATE", "PANIC", "MANIC", "TONIC", "SASSY", "BARES", "STERN"])
}

#[test]
fn fresh_solver_ranks_whole_dictionary() {
    let d = dict();
    let solver = Solver::new(&d);
    // scores 7, 9, 14, 14, 11, 3, 8, 7: ascending, ties by index
    assert_eq!(solver.suggest(&d), vec![5, 0, 7, 6, 1, 4, 2, 3]);
}

#[test]
fn inform_narrows_candidates() {
    let d = dict();
    let mut solver = Solver::new(&d);
    let crane = str_to_word("CRANE").unwrap();
    solver.inform(
        [Lr::Misplaced, Lr::NonMember, Lr::Misplaced, Lr::Misplaced, Lr::NonMember],
        crane,
    );
    assert_eq!(solver.suggest(&d), vec![2, 3]);
}

#[test]
fn suggestions_satisfy_all_feedback() {
    let d = dict();
    let secret = str_to_word("TONIC").unwrap();
    let mut game = Game::new(secret);
    let mut solver = Solver::new(&d);
    for guess in ["SLATE", "CRANE"] {
        let g = str_to_word(guess).unwrap();
        match game.attempt(g).unwrap() {
            GameResult::Miss(r) => solver.inform(r, g),
            other => panic!("unexpected {:?}", other),
        }
    }
    let s = solver.suggest(&d);
    assert!(!s.is_empty());
    for &i in &s {
        assert!(solver.allows(&d[i]));
        let mut check = Game::new(d[i]);
        // a candidate must give the same feedback on every earlier guess
        for guess in ["SLATE", "CRANE"] {
            let g = str_to_word(guess).unwrap();
            let mut real = Game::new(secret);
            assert_eq!(check.attempt(g), real.attempt(g));
            check = Game::new(d[i]);
        }
    }
    let secret_idx = d.iter().position(|w| *w == secret).unwrap();
    assert!(s.contains(&secret_idx));
}

#[test]
fn secret_survives_oracle_feedback() {
    let d = dict();
    for &secret in &d {
        let mut game = Game::new(secret);
        let mut solver = Solver::new(&d);
        for &guess in &d {
            match game.attempt(guess) {
                Ok(GameResult::Miss(r)) => solver.inform(r, guess),
                _ => break,
            }
            let s = solver.suggest(&d);
            let idx = d.iter().position(|w| *w == secret).unwrap();
            assert!(s.contains(&idx));
        }
    }
}

#[test]
fn correct_letter_stays_confirmed_after_non_member() {
    let d = words(&["PANIC", "MANIC", "CANAL"]);
    let mut solver = Solver::new(&d);
    let manic = str_to_word("MANIC").unwrap();
    solver.inform(
        [Lr::NonMember, Lr::Correct, Lr::Correct, Lr::Correct, Lr::Correct],
        manic,
    );
    // a later round calls A a non-member: slot 1 stays confirmed as A
    let canal = str_to_word("CANAL").unwrap();
    solver.inform(
        [Lr::Misplaced, Lr::NonMember, Lr::NonMember, Lr::NonMember, Lr::NonMember],
        canal,
    );
    // the exclusions land on the one slot that had no confirmed letter
    assert!(solver.allows(&d[0]));
    assert!(!solver.allows(&d[1]));
    assert!(!solver.allows(&str_to_word("NANIC").unwrap()));
    assert!(!solver.allows(&str_to_word("CANIC").unwrap()));
    assert_eq!(solver.suggest(&d), vec![0]);
}

#[test]
fn knowledge_never_shrinks() {
    let d = dict();
    let mut solver = Solver::new(&d);
    let mut previous: Vec<usize> = solver.suggest(&d);
    let rounds = [
        ("CRANE", [Lr::Misplaced, Lr::NonMember, Lr::Misplaced, Lr::Misplaced, Lr::NonMember]),
        ("TONIC", [Lr::NonMember, Lr::NonMember, Lr::Correct, Lr::Correct, Lr::Correct]),
    ];
    for (guess, r) in rounds {
        solver.inform(r, str_to_word(guess).unwrap());
        let now = solver.suggest(&d);
        for i in &now {
            assert!(previous.contains(i));
        }
        previous = now;
    }
    assert_eq!(previous, vec![2, 3]);
}

#[test]
fn contradictory_feedback_leaves_no_candidate() {
    let d = dict();
    let mut solver = Solver::new(&d);
    solver.inform([Lr::Correct; 5], str_to_word("QUACK").unwrap());
    assert_eq!(solver.suggest(&d), Vec::<usize>::new());
}

#[test]
fn suggest_on_empty_dictionary() {
    let d = dict();
    let solver = Solver::new(&d);
    assert_eq!(solver.suggest(&[]), Vec::<usize>::new());
}
