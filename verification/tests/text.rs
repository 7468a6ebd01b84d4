use crash_dedup::order::Relation;
use crash_dedup::text::{
    chars_of, contains, decimal_text, ends_with, forward_slashes, is_white_space,
    leading_white_space, padded_decimal_text, relate_text, starts_with, text_of, to_ascii_lower,
    trim,
};

#[test]
fn white_space_and_lower_case_are_those_of_std() {
    for code in 0..=0x10ffff {
        if let Some(c) = char::from_u32(code) {
            assert_eq!(is_white_space(c), c.is_whitespace());
            assert_eq!(to_ascii_lower(c), c.to_ascii_lowercase());
        }
    }
}

const TEXTS: [&str; 12] = [
    "", " ", "  a b  ", "a", "ab", "abc", "b", "\u{10000}", "\u{ffff}", "\t\u{2028}x\u{3000}",
    "aab", "\\a\\",
];

#[test]
fn trimming_and_slashes_are_those_of_std() {
    for text in TEXTS.iter() {
        assert_eq!(trim(text), text.trim());
        assert_eq!(forward_slashes(text), text.replace('\\', "/"));
        let chars = chars_of(text);
        assert_eq!(text_of(&chars, 0, chars.len()), *text);
        let from = leading_white_space(&chars);
        assert_eq!(text_of(&chars, from, chars.len()), text.trim_start());
    }
}

#[test]
fn searching_is_that_of_std() {
    for text in TEXTS.iter() {
        let chars = chars_of(text);
        for part in TEXTS.iter() {
            assert_eq!(starts_with(&chars, part), text.starts_with(*part));
            assert_eq!(ends_with(&chars, part), text.ends_with(*part));
            assert_eq!(contains(&chars, part), text.contains(*part));
        }
    }
}

#[test]
fn text_is_ordered_as_std_orders_it() {
    for a in TEXTS.iter() {
        for b in TEXTS.iter() {
            let expected = if a < b {
                Relation::Less
            } else if a == b {
                Relation::Equal
            } else {
                Relation::Greater
            };
            assert_eq!(relate_text(a, b), expected);
        }
    }
}

#[test]
fn numerals_are_those_of_std() {
    for n in [0, 1, 9, 10, 99, 100, 65535, 99_999, 100_000, 999_999, 1_000_000, u64::MAX] {
        assert_eq!(decimal_text(n), format!("{n}"));
        assert_eq!(padded_decimal_text(n), format!("{n:06}"));
    }
}
