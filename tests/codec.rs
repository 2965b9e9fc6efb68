use wordle::{str_to_word, word_to_string};

#[test]
fn parse_then_format_reproduces_uppercase_token() {
    for token in ["CRANE", "PANIC", "ZZZZZ", "ABCDE"] {
        let w = str_to_word(token).unwrap();
        assert_eq!(word_to_string(w), token);
    }
}

#[test]
fn parse_normalises_case() {
    assert_eq!(str_to_word("panic"), Some(['P', 'A', 'N', 'I', 'C']));
    assert_eq!(str_to_word("PaNiC"), Some(['P', 'A', 'N', 'I', 'C']));
    assert_eq!(word_to_string(str_to_word("fovea").unwrap()), "FOVEA");
}

#[test]
fn parse_rejects_wrong_length() {
    assert_eq!(str_to_word(""), None);
    assert_eq!(str_to_word("abcd"), None);
    assert_eq!(str_to_word("abcdef"), None);
}

#[test]
fn parse_rejects_non_letters() {
    assert_eq!(str_to_word("ab1de"), None);
    assert_eq!(str_to_word("ab de"), None);
    assert_eq!(str_to_word("abcd!"), None);
    assert_eq!(str_to_word("\u{e9}clat"), None);
}

#[test]
fn parse_checks_length_after_upper_casing() {
    // the upper case of the sharp s is two letters
    assert_eq!(str_to_word("\u{df}tar"), Some(['S', 'S', 'T', 'A', 'R']));
}

#[test]
fn format_then_parse_gives_word_back() {
    let w = ['Q', 'U', 'A', 'C', 'K'];
    assert_eq!(str_to_word(&word_to_string(w)), Some(w));
}
