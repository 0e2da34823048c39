use regexify::error::PatternError;
use regexify::text::{append_range, chars_of, find_first, string_of};

#[test]
fn a_string_and_its_characters() {
    assert_eq!(chars_of(""), Vec::<char>::new());
    assert_eq!(chars_of("a[b"), vec!['a', '[', 'b']);
    assert_eq!(chars_of("é∑"), vec!['é', '∑']);
    assert_eq!(string_of(&vec![]), "");
    assert_eq!(string_of(&vec!['x', 'é', '\n']), "xé\n");
    assert_eq!(string_of(&chars_of("[a-z]{2,3}(x|y)\\d")), "[a-z]{2,3}(x|y)\\d");
}

#[test]
fn the_first_occurrence_is_found() {
    let chars = chars_of("a)b)c");
    assert_eq!(find_first(&chars, ')', 0), 1);
    assert_eq!(find_first(&chars, ')', 1), 1);
    assert_eq!(find_first(&chars, ')', 2), 3);
    assert_eq!(find_first(&chars, ')', 4), 5);
    assert_eq!(find_first(&chars, ')', 5), 5);
    assert_eq!(find_first(&chars, 'x', 0), 5);
    assert_eq!(find_first(&chars_of(""), 'x', 0), 0);
}

#[test]
fn a_stretch_is_appended() {
    let source = chars_of("0123456");
    let mut out = chars_of("ab");
    append_range(&mut out, &source, 2, 5);
    assert_eq!(string_of(&out), "ab234");
    append_range(&mut out, &source, 3, 3);
    assert_eq!(string_of(&out), "ab234");
    append_range(&mut out, &source, 0, 7);
    assert_eq!(string_of(&out), "ab2340123456");
}

#[test]
fn errors_say_what_is_wrong() {
    assert_eq!(PatternError::EmptyClass.message(), "empty character class");
    assert_eq!(
        PatternError::InvertedQuantifier.message(),
        "quantifier minimum exceeds its maximum"
    );
    assert_ne!(PatternError::EmptyClass, PatternError::InvertedQuantifier);
}
