use gemma_trading::text::{
    chars_of, contains_text, ends_with, join, replace_char, same_text, starts_with, text_between,
    trim,
};

#[test]
fn trimming_agrees_with_std() {
    for text in ["", " ", "a", " a ", "\t\u{a0}x y\u{3000}\n", "\u{85}z\u{2028}", "\u{200b}q\u{200b}", "\u{feff}"] {
        assert_eq!(trim(text), text.trim());
        assert_eq!(trim(&trim(text)), trim(text));
    }
}

#[test]
fn searching_agrees_with_std() {
    for (text, part) in [("", ""), ("abc", ""), ("abc", "bc"), ("abc", "abcd"), ("aab", "ab"), ("héllo", "él"), ("xyz", "q")] {
        assert_eq!(contains_text(text, part), text.contains(part));
        assert_eq!(starts_with(text, part), text.starts_with(part));
        assert_eq!(ends_with(text, part), text.ends_with(part));
        assert_eq!(same_text(text, part), text == part);
    }
}

#[test]
fn joining_and_replacing_agree_with_std() {
    let list = vec!["a".to_string(), "".to_string(), "c".to_string()];
    assert_eq!(join(&list, "; "), list.join("; "));
    assert_eq!(join(&vec![], "; "), "");
    assert_eq!(replace_char("a b c", ' ', " - "), "a b c".replace(' ', " - "));
    assert_eq!(replace_char("", 'x', "y"), "");
    let chars = chars_of("añb");
    assert_eq!(text_between(&chars, 1, 3), "ñb");
}
