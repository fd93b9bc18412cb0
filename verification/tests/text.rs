use toipe::text::{
    char_is_whitespace, char_to_ascii_lowercase, decimal_string, split_whitespace,
    to_ascii_lowercase,
};

#[test]
fn decimal_of_small_numbers() {
    assert_eq!(decimal_string(0), "0");
    assert_eq!(decimal_string(7), "7");
    assert_eq!(decimal_string(10), "10");
    assert_eq!(decimal_string(9999), "9999");
    assert_eq!(decimal_string(1_000_000), "1000000");
}

#[test]
fn decimal_of_the_largest_number() {
    assert_eq!(decimal_string(u64::MAX), "18446744073709551615");
}

#[test]
fn decimal_agrees_with_formatting() {
    let mut n: u64 = 1;
    for _ in 0..200 {
        assert_eq!(decimal_string(n), format!("{}", n));
        n = n.wrapping_mul(6364136223846793005).wrapping_add(1442695040888963407);
    }
}

#[test]
fn white_space_is_what_the_standard_library_says() {
    for code in 0..=0x10ffffu32 {
        if let Some(c) = char::from_u32(code) {
            assert_eq!(char_is_whitespace(c), c.is_whitespace());
        }
    }
}

#[test]
fn ascii_lowercase_is_what_the_standard_library_says() {
    for code in 0..=0x10ffffu32 {
        if let Some(c) = char::from_u32(code) {
            assert_eq!(char_to_ascii_lowercase(c), c.to_ascii_lowercase());
        }
    }
}

#[test]
fn lowercase_leaves_other_letters_alone() {
    assert_eq!(to_ascii_lowercase("Hello, WORLD 42"), "hello, world 42");
    assert_eq!(to_ascii_lowercase("ÄÖÜ Straße"), "ÄÖÜ straße");
    assert_eq!(to_ascii_lowercase(""), "");
}

#[test]
fn splitting_at_white_space() {
    assert_eq!(split_whitespace("the quick  brown\tfox\n"), vec!["the", "quick", "brown", "fox"]);
    assert_eq!(split_whitespace("  lead and trail  "), vec!["lead", "and", "trail"]);
    assert_eq!(split_whitespace("one"), vec!["one"]);
}

#[test]
fn splitting_nothing_gives_nothing() {
    assert_eq!(split_whitespace(""), Vec::<String>::new());
    assert_eq!(split_whitespace(" \t\r\n"), Vec::<String>::new());
}

#[test]
fn splitting_agrees_with_the_standard_library() {
    let texts = [
        "a b",
        "a\u{a0}b\u{2003}c\u{3000}d",
        "\u{85}x\u{1680}y\u{2028}z\u{2029}",
        "tab\there\u{b}and\u{c}there",
        "nothing_to_split",
        "zero\u{200b}width is no space",
    ];
    for text in texts {
        let expected: Vec<String> = text.split_whitespace().map(|s| s.to_string()).collect();
        assert_eq!(split_whitespace(text), expected);
    }
}
