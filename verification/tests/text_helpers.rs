use version_masking::text::{chars_of, prefix_end, same_text};

#[test]
fn chars_of_lists_the_characters() {
    assert_eq!(chars_of("a.b"), vec!['a', '.', 'b']);
    assert_eq!(chars_of(""), Vec::<char>::new());
    assert_eq!(chars_of("é1"), vec!['é', '1']);
}

#[test]
fn same_text_compares_character_by_character() {
    assert!(same_text("", ""));
    assert!(same_text("abc", "abc"));
    assert!(!same_text("abc", "abd"));
    assert!(!same_text("abc", "ab"));
    assert!(!same_text("ab", "abc"));
    assert!(!same_text("", "a"));
    assert!(same_text("dépendances", "dépendances"));
    assert!(!same_text("dépendances", "dependances"));
}

#[test]
fn prefix_end_finds_the_first_mark() {
    let chars = chars_of("1.22.333");
    assert_eq!(prefix_end(&chars, 0, '.'), 1);
    assert_eq!(prefix_end(&chars, 1, '.'), 1);
    assert_eq!(prefix_end(&chars, 2, '.'), 4);
    assert_eq!(prefix_end(&chars, 5, '.'), 8);
    assert_eq!(prefix_end(&chars, 8, '.'), 8);
    assert_eq!(prefix_end(&chars, 0, ' '), 8);
}
