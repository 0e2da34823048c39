use regexify::pool::{build_pool, push_range};
use regexify::text::{chars_of, string_of};

fn pool(body: &str) -> String {
    string_of(&build_pool(&chars_of(body)))
}

fn range(low: char, high: char) -> String {
    let mut out = Vec::new();
    push_range(&mut out, low, high);
    string_of(&out)
}

#[test]
fn a_range_holds_both_ends_and_all_between() {
    assert_eq!(range('a', 'e'), "abcde");
    assert_eq!(range('0', '9'), "0123456789");
    assert_eq!(range('x', 'x'), "x");
    assert_eq!(range('a', 'z').chars().count(), 26);
    assert_eq!(range('α', 'ε'), "αβγδε");
}

#[test]
fn a_range_that_runs_backwards_is_empty() {
    assert_eq!(range('e', 'a'), "");
    assert_eq!(range('9', '0'), "");
}

#[test]
fn a_range_passes_over_the_codes_that_have_no_character() {
    assert_eq!(range('\u{D7FE}', '\u{E001}'), "\u{D7FE}\u{D7FF}\u{E000}\u{E001}");
    assert_eq!(range('\u{0}', '\u{10FFFF}').chars().count(), 0x110000 - 0x800);
    assert_eq!(range('\u{10FFFE}', '\u{10FFFF}'), "\u{10FFFE}\u{10FFFF}");
}

#[test]
fn a_range_is_appended() {
    let mut out = vec!['<'];
    push_range(&mut out, 'a', 'c');
    push_range(&mut out, 'c', 'a');
    push_range(&mut out, '1', '2');
    assert_eq!(string_of(&out), "<abc12");
}

#[test]
fn single_characters_stand_for_themselves() {
    assert_eq!(pool(""), "");
    assert_eq!(pool("a"), "a");
    assert_eq!(pool("abcdef"), "abcdef");
    assert_eq!(pool("0123456789"), "0123456789");
    assert_eq!(pool(" \t\n\r"), " \t\n\r");
}

#[test]
fn duplicates_are_kept() {
    assert_eq!(pool("aab"), "aab");
    assert_eq!(pool("a-ca"), "abca");
    assert_eq!(pool("a-cb-d"), "abcbcd");
}

#[test]
fn ranges_and_single_characters_mix() {
    assert_eq!(pool("a-e"), "abcde");
    assert_eq!(pool("abcdef0-9"), "abcdef0123456789");
    assert_eq!(pool("a-ef-jk-pqz0-45-9"), "abcdefghijklmnopqz0123456789");
    assert_eq!(pool("_a-c."), "_abc.");
}

#[test]
fn a_dash_is_a_range_only_between_two_characters() {
    assert_eq!(pool("-"), "-");
    assert_eq!(pool("a-"), "a-");
    assert_eq!(pool("-a"), "-a");
    assert_eq!(pool("ab-"), "ab-");
    assert_eq!(pool("a-c-e"), "abc-e");
    assert_eq!(pool("a-c-"), "abc-");
    assert_eq!(pool("---"), "-");
    assert_eq!(pool("+--"), "+,-");
}

#[test]
fn a_backward_range_adds_nothing() {
    assert_eq!(pool("z-a"), "");
    assert_eq!(pool("xz-ay"), "xy");
}
