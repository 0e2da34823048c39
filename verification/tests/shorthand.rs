use regexify::shorthand::{expand_shorthand, shorthand_chars};
use regexify::text::{chars_of, string_of};

const DIGITS: &str = "0123456789";
const BLANKS: &str = " \t\n\r";
const WORD: &str = "abcdefghijklmnopqrstuvwxyzABCDEFGHIJKLMNOPQRSTUVWXYZ0123456789_";

fn expand(text: &str) -> String {
    string_of(&expand_shorthand(&chars_of(text)))
}

#[test]
fn the_three_sets() {
    assert_eq!(shorthand_chars('d').map(|set| string_of(&set)), Some(DIGITS.to_string()));
    assert_eq!(shorthand_chars('s').map(|set| string_of(&set)), Some(BLANKS.to_string()));
    assert_eq!(shorthand_chars('w').map(|set| string_of(&set)), Some(WORD.to_string()));
    assert_eq!(shorthand_chars('D'), None);
    assert_eq!(shorthand_chars('x'), None);
    assert_eq!(shorthand_chars('\\'), None);
}

#[test]
fn markers_are_replaced_by_their_sets() {
    assert_eq!(expand("\\d"), DIGITS);
    assert_eq!(expand("\\s"), BLANKS);
    assert_eq!(expand("\\w"), WORD);
    assert_eq!(expand("[\\d]{10}"), "[0123456789]{10}");
    assert_eq!(expand("a\\db\\sc"), format!("a{}b{}c", DIGITS, BLANKS));
    assert_eq!(expand("\\d\\d"), format!("{}{}", DIGITS, DIGITS));
}

#[test]
fn markers_are_replaced_outside_classes_too() {
    assert_eq!(expand("id-\\d"), format!("id-{}", DIGITS));
    assert_eq!(expand("[a-f\\d]x\\w"), format!("[a-f{}]x{}", DIGITS, WORD));
}

#[test]
fn what_is_no_marker_stays() {
    assert_eq!(expand(""), "");
    assert_eq!(expand("plain"), "plain");
    assert_eq!(expand("\\"), "\\");
    assert_eq!(expand("d\\"), "d\\");
    assert_eq!(expand("\\x\\D\\S\\W\\n"), "\\x\\D\\S\\W\\n");
    assert_eq!(expand("\\ d"), "\\ d");
}

#[test]
fn a_backslash_before_a_marker_stays() {
    assert_eq!(expand("\\\\d"), format!("\\{}", DIGITS));
    assert_eq!(expand("\\\\\\w"), format!("\\\\{}", WORD));
}

#[test]
fn expanding_agrees_with_replacing_in_any_order() {
    let table = [("\\d", DIGITS), ("\\s", BLANKS), ("\\w", WORD)];
    let orders = [[0, 1, 2], [0, 2, 1], [1, 0, 2], [1, 2, 0], [2, 0, 1], [2, 1, 0]];
    let texts = [
        "",
        "\\d",
        "\\d\\s\\w",
        "\\w\\s\\d",
        "[\\d]{10}[\\s]{2}[\\w]{3,4}",
        "\\\\d\\\\s\\\\w",
        "d\\s\\",
        "\\dd\\ss\\ww",
        "no marker at all",
        "\\x\\d\\y\\s\\z\\w",
    ];
    for text in texts {
        for order in orders {
            let mut replaced = text.to_string();
            for index in order {
                replaced = replaced.replace(table[index].0, table[index].1);
            }
            assert_eq!(expand(text), replaced, "text {:?}, order {:?}", text, order);
        }
    }
}
