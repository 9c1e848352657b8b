use std::cmp::Ordering;
use taskman::compare::{cmp_ignore_case, cmp_option_str, directed};
use taskman::text::{eq_ignore_ascii_case, str_eq};

#[test]
fn text_comparisons_ignore_case() {
    assert_eq!(cmp_ignore_case("Alpha", "alpha"), Ordering::Equal);
    assert_eq!(cmp_ignore_case("alpha", "Beta"), Ordering::Less);
    assert_eq!(cmp_ignore_case("ab", "a"), Ordering::Greater);
    assert_eq!(cmp_ignore_case("ÄPFEL", "äpfel"), Ordering::Equal, "beyond ASCII too");
    assert_eq!(cmp_option_str(Some("a"), None), Ordering::Less);
    assert_eq!(cmp_option_str(None, Some("a")), Ordering::Greater);
    assert_eq!(cmp_option_str(None, None), Ordering::Equal);
    assert_eq!(directed(Ordering::Less, false), Ordering::Greater);
    assert_eq!(directed(Ordering::Less, true), Ordering::Less);
    assert!(eq_ignore_ascii_case("Explorer.EXE", "explorer.exe"));
    assert!(!eq_ignore_ascii_case("ä", "Ä"), "only ASCII folds");
    assert!(str_eq("x", "x") && !str_eq("x", "X"));
}
