use vecstore::text::{same_text, text_before};

const SAMPLES: [&str; 12] =
    ["", "a", "A", "ab", "abc", "abd", "b", "hello", "world", "z", "\u{e9}", "\u{10348}x"];

#[test]
fn same_text_agrees_with_string_equality() {
    for a in SAMPLES {
        for b in SAMPLES {
            assert_eq!(same_text(a, b), a == b, "{:?} {:?}", a, b);
        }
    }
}

#[test]
fn text_before_agrees_with_string_order() {
    for a in SAMPLES {
        for b in SAMPLES {
            assert_eq!(text_before(a, b), a < b, "{:?} {:?}", a, b);
        }
    }
}

#[test]
fn prefix_comes_first() {
    assert!(text_before("", "a"));
    assert!(text_before("ab", "abc"));
    assert!(!text_before("abc", "ab"));
    assert!(!text_before("abc", "abc"));
    assert!(!text_before("", ""));
}

#[test]
fn first_differing_byte_decides() {
    assert!(text_before("abc", "abd"));
    assert!(text_before("Zebra", "apple"));
    assert!(text_before("z", "\u{e9}"));
    assert!(!text_before("b", "abc"));
}
