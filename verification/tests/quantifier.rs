use regex::Regex;
use regexify::digit::{decimal_digit, digit_given};
use regexify::quantifier::{parse_count, read_quantifier, scan_digits, Quantifier};
use regexify::text::chars_of;

fn count(field: &str) -> usize {
    let chars = chars_of(field);
    parse_count(&chars, 0, chars.len())
}

fn quantifier(text: &str, at: usize) -> Option<Quantifier> {
    read_quantifier(&chars_of(text), at)
}

#[test]
fn counts_are_read_in_base_ten() {
    assert_eq!(count("0"), 0);
    assert_eq!(count("7"), 7);
    assert_eq!(count("10"), 10);
    assert_eq!(count("100"), 100);
    assert_eq!(count("1234567890"), 1234567890);
    assert_eq!(count("007"), 7);
    assert_eq!(count("000"), 0);
}

#[test]
fn the_greatest_count_is_read() {
    assert_eq!(count(&usize::MAX.to_string()), usize::MAX);
    assert_eq!(count(&format!("000{}", usize::MAX)), usize::MAX);
}

#[test]
fn a_count_that_does_not_fit_is_one() {
    assert_eq!(count("99999999999999999999999999"), 1);
    assert_eq!(count(&format!("{}0", usize::MAX)), 1);
    let above = usize::MAX as u128 + 1;
    assert_eq!(count(&above.to_string()), 1);
}

#[test]
fn what_is_no_number_is_one() {
    assert_eq!(count(""), 1);
    assert_eq!(count("a"), 1);
    assert_eq!(count("12a"), 1);
    assert_eq!(count("+5"), 1);
    assert_eq!(count("-5"), 1);
    assert_eq!(count(" 5"), 1);
    assert_eq!(count("٣"), 1);
}

#[test]
fn digits_of_another_script_write_no_number() {
    assert_eq!(count("٣"), 1);
    assert_eq!(count("٣٣٣"), 1);
    assert_eq!(count("1٣"), 1);
    assert_eq!(count("５"), 1);
    assert_eq!(count("२0"), 1);
}

#[test]
fn a_field_of_digits_of_another_script_is_a_quantifier_of_one() {
    assert_eq!(quantifier("{٣}", 0), Some(Quantifier { end: 3, min: 1, max: 1 }));
    assert_eq!(quantifier("{٣٣}", 0), Some(Quantifier { end: 4, min: 1, max: 1 }));
    assert_eq!(quantifier("{7,٣}", 0), Some(Quantifier { end: 5, min: 7, max: 1 }));
    assert_eq!(quantifier("{٣,7}", 0), Some(Quantifier { end: 5, min: 1, max: 7 }));
    assert_eq!(quantifier("{1５}", 0), Some(Quantifier { end: 4, min: 1, max: 1 }));
}

#[test]
fn the_ten_digits_are_the_decimal_digits_of_ascii() {
    for code in 0u8..128 {
        let c = code as char;
        assert_eq!(decimal_digit(c), c.is_ascii_digit(), "character {:?}", c);
    }
}

#[test]
fn beyond_ascii_the_match_decides() {
    assert!(digit_given('٣', Some(true)));
    assert!(!digit_given('٣', Some(false)));
    assert!(!digit_given('٣', None));
    assert!(digit_given('é', Some(true)));
    assert!(!digit_given('é', Some(false)));
}

#[test]
fn within_ascii_the_match_decides_nothing() {
    for matched in [None, Some(false), Some(true)] {
        assert!(digit_given('0', matched));
        assert!(digit_given('9', matched));
        assert!(!digit_given('a', matched));
        assert!(!digit_given('}', matched));
        assert!(!digit_given(',', matched));
        assert!(!digit_given('\u{7F}', matched));
    }
}

#[test]
fn decimal_digits_of_other_scripts() {
    for c in ['٠', '٣', '٩', '۵', '०', '९', '５', '９', '𝟚', '𝟘'] {
        assert!(decimal_digit(c), "character {:?}", c);
    }
    for c in ['é', 'α', '½', '²', 'Ⅷ', '一', '〇', '€', '\u{80}', '\u{10FFFF}'] {
        assert!(!decimal_digit(c), "character {:?}", c);
    }
}

#[test]
fn decimal_digits_are_what_the_regular_expression_takes() {
    let re = Regex::new(r"\d").unwrap();
    let mut text = String::new();
    for code in (0u32..0x0D00).chain(0xA620..0xA630).chain(0xFF00..0xFF30).chain(0x1D7C0..0x1D800) {
        if let Some(c) = char::from_u32(code) {
            text.clear();
            text.push(c);
            assert_eq!(decimal_digit(c), re.is_match(&text), "character {:?}", c);
        }
    }
}

#[test]
fn a_count_inside_a_text() {
    let chars = chars_of("ab{42,7}");
    assert_eq!(parse_count(&chars, 3, 5), 42);
    assert_eq!(parse_count(&chars, 6, 7), 7);
    assert_eq!(parse_count(&chars, 3, 3), 1);
}

#[test]
fn runs_of_digits() {
    let chars = chars_of("12ab345");
    assert_eq!(scan_digits(&chars, 0), 2);
    assert_eq!(scan_digits(&chars, 1), 2);
    assert_eq!(scan_digits(&chars, 2), 2);
    assert_eq!(scan_digits(&chars, 4), 7);
    assert_eq!(scan_digits(&chars, 7), 7);
    assert_eq!(scan_digits(&chars_of("٣4"), 0), 2);
    assert_eq!(scan_digits(&chars_of("1５२x"), 0), 3);
    assert_eq!(scan_digits(&chars_of("½2"), 0), 0);
}

#[test]
fn a_single_count() {
    assert_eq!(quantifier("{3}", 0), Some(Quantifier { end: 3, min: 3, max: 3 }));
    assert_eq!(quantifier("{100}", 0), Some(Quantifier { end: 5, min: 100, max: 100 }));
    assert_eq!(quantifier("{0}", 0), Some(Quantifier { end: 3, min: 0, max: 0 }));
    assert_eq!(quantifier("[a]{12}x", 3), Some(Quantifier { end: 7, min: 12, max: 12 }));
}

#[test]
fn two_counts() {
    assert_eq!(quantifier("{4,8}", 0), Some(Quantifier { end: 5, min: 4, max: 8 }));
    assert_eq!(quantifier("{10,16}", 0), Some(Quantifier { end: 7, min: 10, max: 16 }));
    assert_eq!(quantifier("{8,4}", 0), Some(Quantifier { end: 5, min: 8, max: 4 }));
    assert_eq!(quantifier("{03,005}", 0), Some(Quantifier { end: 8, min: 3, max: 5 }));
    assert_eq!(quantifier("x{1,2}{3}", 1), Some(Quantifier { end: 6, min: 1, max: 2 }));
}

#[test]
fn each_field_that_does_not_fit_counts_as_one() {
    let huge = "99999999999999999999999999";
    assert_eq!(
        quantifier(&format!("{{{}}}", huge), 0),
        Some(Quantifier { end: 28, min: 1, max: 1 })
    );
    assert_eq!(
        quantifier(&format!("{{{},5}}", huge), 0),
        Some(Quantifier { end: 30, min: 1, max: 5 })
    );
    assert_eq!(
        quantifier(&format!("{{5,{}}}", huge), 0),
        Some(Quantifier { end: 30, min: 5, max: 1 })
    );
}

#[test]
fn what_is_no_quantifier() {
    for text in [
        "", "{", "}", "{}", "{,}", "{3", "{3,", "{3,}", "{,3}", "{3,4", "{a}", "{3a}", "{3,a}",
        "{3,4a}", "{ 3}", "{3 }", "{3, 4}", "{3,,4}", "{3,4,5}", "{-3}", "{+3}", "3}", "x{3}",
        "{½}", "{Ⅷ}", "{3,²}",
    ] {
        assert_eq!(quantifier(text, 0), None, "text {:?}", text);
    }
    assert_eq!(quantifier("{3}", 1), None);
    assert_eq!(quantifier("{3}", 3), None);
}
