use rmx::prompt::{is_affirmative, is_yes};

#[test]
fn yes_answers() {
    assert!(is_affirmative("y"));
    assert!(is_affirmative("yes"));
    assert!(is_affirmative("Y\n"));
    assert!(is_affirmative("  YeS \n"));
}

#[test]
fn other_answers_decline() {
    assert!(!is_affirmative("n"));
    assert!(!is_affirmative(""));
    assert!(!is_affirmative("\n"));
    assert!(!is_affirmative("yess"));
    assert!(!is_affirmative("ye"));
    assert!(!is_affirmative("y e s"));
}

#[test]
fn folded_answers() {
    assert!(is_yes("y"));
    assert!(is_yes("yes"));
    assert!(!is_yes("Y"));
    assert!(!is_yes(" y"));
    assert!(!is_yes("no"));
}
