use revset::text::{append_decimal, byte_length, characters, same_text, text_contains};

#[test]
fn substrings() {
    assert!(text_contains("a change", "chang"));
    assert!(text_contains("a change", ""));
    assert!(text_contains("", ""));
    assert!(text_contains("aab", "ab"));
    assert!(!text_contains("a change", "Change"));
    assert!(!text_contains("ab", "abc"));
    assert!(text_contains("d\u{e9}j\u{e0}", "\u{e9}j"));
}

#[test]
fn numerals() {
    let numeral = |n: usize| {
        let mut out = String::from("n=");
        append_decimal(&mut out, n);
        out
    };
    assert_eq!(numeral(0), "n=0");
    assert_eq!(numeral(9), "n=9");
    assert_eq!(numeral(10), "n=10");
    assert_eq!(numeral(1234567890), "n=1234567890");
}

#[test]
fn lengths_and_characters() {
    assert_eq!(byte_length("\u{e9}\u{20ac}"), 5);
    assert_eq!(characters("\u{e9}x"), vec!['\u{e9}', 'x']);
    assert!(same_text("abc", "abc"));
    assert!(!same_text("abc", "abd"));
}
