use rand::rngs::ThreadRng;
use regex::Regex;
use regexify::class::{find_classes, materialize_classes};
use regexify::error::PatternError;
use regexify::text::{chars_of, string_of};

type Found = (usize, usize, String, usize, usize);

fn classes_of(text: &str) -> Vec<Found> {
    find_classes(&chars_of(text))
        .iter()
        .map(|class| (class.start, class.end, string_of(&class.body), class.min, class.max))
        .collect()
}

fn classes_by_regex(text: &str) -> Vec<Found> {
    let re = Regex::new(r"\[([^\]]*)\](\{(\d+)(?:,(\d+))?\})?").unwrap();
    re.captures_iter(text)
        .map(|caps| {
            let whole = caps.get(0).unwrap();
            let (min, max) = match caps.get(3) {
                Some(min) => {
                    let min: usize = min.as_str().parse().unwrap_or(1);
                    let max = match caps.get(4) {
                        Some(max) => max.as_str().parse().unwrap_or(1),
                        None => min,
                    };
                    (min, max)
                }
                None => (1, 1),
            };
            (whole.start(), whole.end(), caps[1].to_string(), min, max)
        })
        .collect()
}

fn materialize(text: &str, rng: &mut ThreadRng) -> Result<String, PatternError> {
    materialize_classes(&chars_of(text), rng).map(|out| string_of(&out))
}

#[test]
fn a_class_without_a_quantifier_asks_for_one_character() {
    assert_eq!(classes_of("[abcdef]"), vec![(0, 8, "abcdef".to_string(), 1, 1)]);
    assert_eq!(classes_of("x[a]y"), vec![(1, 4, "a".to_string(), 1, 1)]);
}

#[test]
fn a_quantifier_belongs_to_the_class_before_it() {
    assert_eq!(classes_of("[abcdef]{100}"), vec![(0, 13, "abcdef".to_string(), 100, 100)]);
    assert_eq!(classes_of("[a-z]{4,8}"), vec![(0, 10, "a-z".to_string(), 4, 8)]);
    assert_eq!(classes_of("[a-z]{10,16}!"), vec![(0, 12, "a-z".to_string(), 10, 16)]);
    assert_eq!(classes_of("[a]{0}"), vec![(0, 6, "a".to_string(), 0, 0)]);
    assert_eq!(classes_of("[a]{2,1}"), vec![(0, 8, "a".to_string(), 2, 1)]);
}

#[test]
fn classes_are_found_left_to_right() {
    assert_eq!(
        classes_of("[a-z]{2}[0-9]{3}"),
        vec![(0, 8, "a-z".to_string(), 2, 2), (8, 16, "0-9".to_string(), 3, 3)]
    );
    assert_eq!(
        classes_of("id-[0-9]{4}-[xy]"),
        vec![(3, 11, "0-9".to_string(), 4, 4), (12, 16, "xy".to_string(), 1, 1)]
    );
}

#[test]
fn what_is_no_quantifier_is_left_after_the_class() {
    assert_eq!(classes_of("[a]{x}"), vec![(0, 3, "a".to_string(), 1, 1)]);
    assert_eq!(classes_of("[a]{3,}"), vec![(0, 3, "a".to_string(), 1, 1)]);
    assert_eq!(classes_of("[a] {3}"), vec![(0, 3, "a".to_string(), 1, 1)]);
    assert_eq!(classes_of("[a]{3}{4}"), vec![(0, 6, "a".to_string(), 3, 3)]);
}

#[test]
fn what_is_no_class() {
    assert!(classes_of("").is_empty());
    assert!(classes_of("plain{3}").is_empty());
    assert!(classes_of("[").is_empty());
    assert!(classes_of("]").is_empty());
    assert!(classes_of("[open").is_empty());
    assert!(classes_of("][").is_empty());
}

#[test]
fn an_empty_pair_is_a_class_with_an_empty_body() {
    assert_eq!(classes_of("[]"), vec![(0, 2, "".to_string(), 1, 1)]);
    assert_eq!(classes_of("[]]"), vec![(0, 2, "".to_string(), 1, 1)]);
    assert_eq!(classes_of("[]{0}"), vec![(0, 5, "".to_string(), 0, 0)]);
    assert_eq!(classes_of("[]{2,3}"), vec![(0, 7, "".to_string(), 2, 3)]);
    assert_eq!(
        classes_of("[][a]{2}"),
        vec![(0, 2, "".to_string(), 1, 1), (2, 8, "a".to_string(), 2, 2)]
    );
}

#[test]
fn digits_of_another_script_make_a_quantifier_that_counts_as_one() {
    assert_eq!(classes_of("[a]{٣}"), vec![(0, 6, "a".to_string(), 1, 1)]);
    assert_eq!(classes_of("[a]{1٣}"), vec![(0, 7, "a".to_string(), 1, 1)]);
    assert_eq!(classes_of("[a]{٣,4}"), vec![(0, 8, "a".to_string(), 1, 4)]);
    assert_eq!(classes_of("[a]{4,٣}"), vec![(0, 8, "a".to_string(), 4, 1)]);
    assert_eq!(classes_of("[a]{５}"), vec![(0, 6, "a".to_string(), 1, 1)]);
    assert_eq!(classes_of("[a]{½}"), vec![(0, 3, "a".to_string(), 1, 1)]);
}

#[test]
fn an_inner_opening_bracket_belongs_to_the_body() {
    assert_eq!(classes_of("[[a]"), vec![(0, 4, "[a".to_string(), 1, 1)]);
    assert_eq!(classes_of("[[]"), vec![(0, 3, "[".to_string(), 1, 1)]);
}

#[test]
fn a_class_with_a_count_that_does_not_fit() {
    assert_eq!(
        classes_of("[a]{99999999999999999999999999}"),
        vec![(0, 31, "a".to_string(), 1, 1)]
    );
    assert_eq!(
        classes_of("[a]{5,99999999999999999999999999}"),
        vec![(0, 33, "a".to_string(), 5, 1)]
    );
}

#[test]
fn classes_agree_with_the_regular_expression() {
    let texts = [
        "",
        "plain text",
        "[abcdef]",
        "[abcdef]{100}",
        "[abcdef0-9]{100}",
        "[a-ef-jk-pqz0-45-9]{100}",
        "[a-z]{4}",
        "[a-z]{4,8}",
        "[a-z]{10,16}",
        "[a-z]{2}[0-9]{3}",
        "[0123456789]{10}",
        "[ \t\n\r]{10}",
        "x[a]y[b]{2}z[c]{3,4}w",
        "[]",
        "[]]",
        "[][a]{2}",
        "[[a]",
        "[[]",
        "[a]]",
        "[a]{",
        "[a]{}",
        "[a]{3",
        "[a]{3,",
        "[a]{3,}",
        "[a]{,3}",
        "[a]{3,4",
        "[a]{x}",
        "[a]{3x}",
        "[a]{3,x}",
        "[a]{3,4x}",
        "[a] {3}",
        "[a]{ 3}",
        "[a]{3}{4}",
        "[a]{3,4}{5}",
        "[a]{03,005}",
        "[a]{0}",
        "[a]{0,0}",
        "[a]{2,1}",
        "[a]{99999999999999999999999999}",
        "[a]{99999999999999999999999999,3}",
        "[{3}]{4}",
        "[a{3}]",
        "{3}[a]",
        "[a\nb]{2}",
        "[a][b][c][d]",
        "[[[[",
        "]]]]",
        "[a[b[c]d]e]",
    ];
    for text in texts {
        assert_eq!(classes_of(text), classes_by_regex(text), "text {:?}", text);
    }
}

#[test]
fn a_text_without_classes_is_unchanged() {
    let mut rng = rand::rng();
    assert_eq!(materialize("", &mut rng), Ok("".to_string()));
    assert_eq!(materialize("plain {3} text", &mut rng), Ok("plain {3} text".to_string()));
    assert_eq!(materialize("[", &mut rng), Ok("[".to_string()));
    assert_eq!(materialize("]x[", &mut rng), Ok("]x[".to_string()));
}

#[test]
fn a_pool_of_one_character_leaves_no_choice() {
    let mut rng = rand::rng();
    assert_eq!(materialize("[a]", &mut rng), Ok("a".to_string()));
    assert_eq!(materialize("[a]{5}", &mut rng), Ok("aaaaa".to_string()));
    assert_eq!(materialize("[a]{3,3}", &mut rng), Ok("aaa".to_string()));
    assert_eq!(materialize("[a]{0}", &mut rng), Ok("".to_string()));
    assert_eq!(materialize("[aa]{4}", &mut rng), Ok("aaaa".to_string()));
    assert_eq!(materialize("[x-x]{2}", &mut rng), Ok("xx".to_string()));
}

#[test]
fn text_between_classes_is_kept() {
    let mut rng = rand::rng();
    assert_eq!(materialize("x[a]{3}y", &mut rng), Ok("xaaay".to_string()));
    assert_eq!(materialize("<[a]{2}|[b]{3}>", &mut rng), Ok("<aa|bbb>".to_string()));
    assert_eq!(materialize("[a]{x}", &mut rng), Ok("a{x}".to_string()));
    assert_eq!(materialize("[a]{2}{3}", &mut rng), Ok("aa{3}".to_string()));
    assert_eq!(materialize("[]{0}[a]", &mut rng), Ok("a".to_string()));
}

#[test]
fn a_count_that_does_not_fit_gives_one_character() {
    let mut rng = rand::rng();
    assert_eq!(materialize("[a]{99999999999999999999999999}", &mut rng), Ok("a".to_string()));
}

#[test]
fn an_empty_pool_is_an_error() {
    let mut rng = rand::rng();
    assert_eq!(materialize("[z-a]", &mut rng), Err(PatternError::EmptyClass));
    assert_eq!(materialize("[z-a]{3}", &mut rng), Err(PatternError::EmptyClass));
    assert_eq!(materialize("[z-a]{2,5}", &mut rng), Err(PatternError::EmptyClass));
    assert_eq!(materialize("ok[a]{2}[z-a]", &mut rng), Err(PatternError::EmptyClass));
}

#[test]
fn an_empty_body_is_an_error() {
    let mut rng = rand::rng();
    assert_eq!(materialize("[]", &mut rng), Err(PatternError::EmptyClass));
    assert_eq!(materialize("[]]", &mut rng), Err(PatternError::EmptyClass));
    assert_eq!(materialize("x[]y", &mut rng), Err(PatternError::EmptyClass));
    assert_eq!(materialize("[]{4}", &mut rng), Err(PatternError::EmptyClass));
    assert_eq!(materialize("[][a]", &mut rng), Err(PatternError::EmptyClass));
    assert_eq!(materialize("[a][]", &mut rng), Err(PatternError::EmptyClass));
    assert_eq!(materialize("[]{0}", &mut rng), Ok("".to_string()));
}

#[test]
fn an_empty_pool_is_no_error_where_nothing_is_drawn() {
    let mut rng = rand::rng();
    assert_eq!(materialize("[z-a]{0}", &mut rng), Ok("".to_string()));
    assert_eq!(materialize("x[z-a]{0,0}y", &mut rng), Ok("xy".to_string()));
}

#[test]
fn an_empty_pool_fails_only_where_a_length_above_zero_is_drawn() {
    let mut rng = rand::rng();
    let mut passed = false;
    let mut failed = false;
    for _ in 0..400 {
        match materialize("[z-a]{0,1}", &mut rng) {
            Ok(out) => {
                assert_eq!(out, "");
                passed = true;
            }
            Err(error) => {
                assert_eq!(error, PatternError::EmptyClass);
                failed = true;
            }
        }
    }
    assert!(passed && failed);
}

#[test]
fn a_minimum_above_the_maximum_is_an_error() {
    let mut rng = rand::rng();
    assert_eq!(materialize("[a]{2,1}", &mut rng), Err(PatternError::InvertedQuantifier));
    assert_eq!(materialize("[z-a]{2,1}", &mut rng), Err(PatternError::InvertedQuantifier));
    assert_eq!(materialize("[a]{1,0}", &mut rng), Err(PatternError::InvertedQuantifier));
    assert_eq!(
        materialize("[a]{5,99999999999999999999999999}", &mut rng),
        Err(PatternError::InvertedQuantifier)
    );
}

#[test]
fn the_first_class_that_fails_decides_the_error() {
    let mut rng = rand::rng();
    assert_eq!(materialize("[a]{3,2}x[z-a]", &mut rng), Err(PatternError::InvertedQuantifier));
    assert_eq!(materialize("[z-a]x[a]{3,2}", &mut rng), Err(PatternError::EmptyClass));
}

#[test]
fn lengths_stay_inside_the_quantifier() {
    let mut rng = rand::rng();
    let mut seen = [false; 5];
    for _ in 0..600 {
        let out = materialize("[a-z]{4,8}", &mut rng).unwrap();
        let length = out.chars().count();
        assert!((4..=8).contains(&length), "length {}", length);
        assert!(out.chars().all(|c| c.is_ascii_lowercase()));
        seen[length - 4] = true;
    }
    assert_eq!(seen, [true; 5]);
}

#[test]
fn every_character_of_the_pool_is_drawn_sooner_or_later() {
    let mut rng = rand::rng();
    let out = materialize("[a-cx]{400}", &mut rng).unwrap();
    assert_eq!(out.chars().count(), 400);
    assert!(out.chars().all(|c| "abcx".contains(c)));
    for c in "abcx".chars() {
        assert!(out.contains(c), "never drew {:?}", c);
    }
}

#[test]
fn characters_beyond_ascii_are_drawn_whole() {
    let mut rng = rand::rng();
    let out = materialize("[α-γ]{50}é", &mut rng).unwrap();
    assert_eq!(out.chars().count(), 51);
    assert!(out.chars().take(50).all(|c| "αβγ".contains(c)));
    assert!(out.ends_with('é'));
}

#[test]
fn classes_agree_with_the_regular_expression_on_many_texts() {
    let alphabet: Vec<char> = "[][]{}{},,0123a-(|".chars().collect();
    let mut state: u64 = 0x9E3779B97F4A7C15;
    for _ in 0..5000 {
        let mut text = String::new();
        state = state.wrapping_mul(6364136223846793005).wrapping_add(1442695040888963407);
        let length = (state >> 33) % 16;
        for _ in 0..length {
            state = state.wrapping_mul(6364136223846793005).wrapping_add(1442695040888963407);
            text.push(alphabet[((state >> 33) % alphabet.len() as u64) as usize]);
        }
        assert_eq!(classes_of(&text), classes_by_regex(&text), "text {:?}", text);
    }
}
