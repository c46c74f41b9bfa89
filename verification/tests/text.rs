use smc::text::{
    blank, contains, decimal_text, holds_whitespace, join, original_place, split_text, starts_with,
    take_chars, text_less, to_chars, word_count,
};

#[test]
fn whitespace_is_that_of_unicode() {
    assert!(blank("") && blank(" \t\r\n\u{3000}\u{a0}"));
    assert!(!blank("\u{200b}") && !blank(" x "));
    let listed = "\t\n\u{b}\u{c}\r \u{85}\u{a0}\u{1680}\u{2000}\u{2001}\u{2002}\u{2003}\u{2004}\
        \u{2005}\u{2006}\u{2007}\u{2008}\u{2009}\u{200a}\u{2028}\u{2029}\u{202f}\u{205f}\u{3000}";
    for c in '\0'..=char::MAX {
        assert_eq!(blank(&c.to_string()), listed.contains(c), "{c:?}");
    }
    assert!(holds_whitespace("a\u{2003}b") && !holds_whitespace("ab") && !holds_whitespace(""));
}

#[test]
fn places_lead_back_to_their_characters() {
    let chars = to_chars("aİbİ");
    let places: Vec<usize> = (0..8).map(|q| original_place(&chars, q)).collect();
    assert_eq!(places, vec![0, 1, 1, 2, 3, 3, 3, 3]);
    assert_eq!(original_place(&vec![], 4), 0);
    // Every character takes up as many places as its lower case has characters.
    for text in ["ΑΣ", "ǅÄẞKÅ", "日本", "ΌΔΟΣ İ"] {
        let lower: Vec<char> = text.to_lowercase().chars().collect();
        let chars = to_chars(text);
        for (q, c) in lower.iter().enumerate() {
            let from = chars[original_place(&chars, q)];
            assert!(from.to_lowercase().any(|l| l == *c) || *c == 'ς', "{text} {q}");
        }
    }
}

#[test]
fn words_are_counted() {
    for s in ["", "  ", "one", " one  two\nthree ", "日本 語", "a\u{3000}b"] {
        assert_eq!(word_count(&to_chars(s)), s.split_whitespace().count(), "{s:?}");
    }
}

#[test]
fn texts_are_cut_and_joined() {
    assert_eq!(take_chars("日本語", 2), "日本");
    assert_eq!(take_chars("ab", 5), "ab");
    assert_eq!(take_chars("ab", 0), "");
    assert_eq!(split_text("a--b-", '-'), vec!["a", "", "b", ""]);
    assert_eq!(split_text("", '-'), vec![""]);
    assert_eq!(join(&vec!["a".to_string(), String::new(), "b".to_string()], "+"), "a++b");
    assert_eq!(join(&vec![], "+"), "");
}

#[test]
fn texts_are_searched_and_ordered() {
    assert!(contains("abc", "bc") && contains("abc", "") && contains("", ""));
    assert!(!contains("abc", "ac") && !contains("", "a"));
    assert!(starts_with("abc", "ab") && starts_with("", "") && !starts_with("a", "ab"));
    let mut list = vec!["b", "a", "", "ab", "é", "z", "日", "🎉", "2026-01-01", "~"];
    list.sort();
    for pair in list.windows(2) {
        assert!(text_less(pair[0], pair[1]) && !text_less(pair[1], pair[0]));
    }
    assert!(!text_less("a", "a"));
}

#[test]
fn numbers_are_written_in_decimal() {
    for n in [0, 7, 10, 1234567890, u128::MAX] {
        assert_eq!(decimal_text(n), n.to_string());
    }
}
