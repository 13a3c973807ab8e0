use marhta::error::ConfigError;
use marhta::levenshtein::{levenshtein_distance, levenshtein_match, levenshtein_similarity};
use marhta::ratio::Ratio;
use marhta::score::Score;

fn ratio(num: i128, den: i128) -> Ratio {
    Ratio::new(num, den).unwrap()
}

fn float(r: &Ratio) -> f64 {
    r.numerator() as f64 / r.denominator() as f64
}

/// The number that limbs of 32 bits stand for, the least significant first.
fn number(limbs: &[u32]) -> i128 {
    limbs.iter().rev().fold(0i128, |acc, &limb| acc * (1i128 << 32) + limb as i128)
}

/// Numerator and denominator of a score whose parts fit 128 bits.
fn parts(s: &Score) -> (i128, i128) {
    let (gain, loss, den) = s.parts();
    (number(&gain) - number(&loss), number(&den))
}

fn score_float(s: &Score) -> f64 {
    let (num, den) = parts(s);
    num as f64 / den as f64
}

/// Texts and the parts of their scores.
fn shown(ranked: &[(String, Score)]) -> Vec<(String, i128, i128)> {
    ranked
        .iter()
        .map(|m| {
            let (num, den) = parts(&m.1);
            (m.0.clone(), num, den)
        })
        .collect()
}

fn similarity(s1: &str, s2: &str, cutoff: Option<Ratio>) -> f64 {
    float(&levenshtein_similarity(s1, s2, cutoff).unwrap())
}

fn words() -> Vec<String> {
    vec![
        "kitten".to_string(),
        "sitting".to_string(),
        "hello".to_string(),
        "world".to_string(),
    ]
}

#[test]
fn test_distance() {
    assert_eq!(levenshtein_distance("martha", "marhta", None), 2);
    assert_eq!(levenshtein_distance("kitten", "sitting", None), 3);
    assert_eq!(levenshtein_distance("saturday", "sunday", None), 3);
    assert_eq!(levenshtein_distance("", "", None), 0);
    assert_eq!(levenshtein_distance("abc", "", None), 3);
    assert_eq!(levenshtein_distance("", "xyz", None), 3);
    assert_eq!(levenshtein_distance("abc", "abc", None), 0);

    assert_eq!(levenshtein_distance("a", "", None), 1);
    assert_eq!(levenshtein_distance("", "a", None), 1);
    assert_eq!(levenshtein_distance("abc", "acb", None), 2);
    assert_eq!(levenshtein_distance("abc", "bca", None), 2);
    assert_eq!(
        levenshtein_distance(&"a".repeat(1000), &"b".repeat(1000), None),
        1000
    );

    assert_eq!(levenshtein_distance("café", "cafe", None), 1);
    assert_eq!(levenshtein_distance("こんにちは", "konnichiwa", None), 10);
}

#[test]
fn test_distance_with_cutoff() {
    assert_eq!(levenshtein_distance("kitten", "sitting", Some(2)), 3);
    assert_eq!(levenshtein_distance("kitten", "sitting", Some(1)), 2);
    assert_eq!(levenshtein_distance("abc", "def", Some(2)), 3);
    assert_eq!(levenshtein_distance("short", "verylongstring", Some(3)), 4);
    assert_eq!(levenshtein_distance("prefixabc", "prefixdef", Some(2)), 3);
    assert_eq!(levenshtein_distance("1080", "10-point", Some(4)), 5);
    assert_eq!(levenshtein_distance("1080", "10-point", Some(3)), 4);
    assert_eq!(levenshtein_distance("short", "verylongstring", Some(4)), 5);
    assert_eq!(levenshtein_distance("aasvogel", "selsyn", Some(5)), 6);
}

#[test]
fn test_similarity() {
    assert_eq!(similarity("", "", None), 1.0);
    assert_eq!(similarity("kitten", "sitting", None), 1.0 - 3.0 / 7.0);
    assert_eq!(similarity("abc", "xyz", None), 0.0);
}

#[test]
fn test_similarity_with_cutoff() {
    assert_eq!(
        similarity("kitten", "sitting", Some(ratio(1, 2))),
        1.0 - 3.0 / 7.0
    );
    assert!(similarity("abc", "xyz", Some(ratio(9, 10))) < 0.9);
    assert_eq!(similarity("abcdef", "abcdef", Some(ratio(9, 10))), 1.0);
}

#[test]
fn test_match() {
    let matches = levenshtein_match("kitten", words(), ratio(0, 1), ratio(1, 1), 2);

    assert!((score_float(&matches[0].1) - 1.0).abs() < f64::EPSILON);
    assert_eq!(matches[0].0, "kitten");

    assert!((score_float(&matches[1].1) - (1.0 - 3.0 / 7.0)).abs() < f64::EPSILON);
    assert_eq!(matches[1].0, "sitting");
}

#[test]
fn test_match_with_cutoff() {
    let matches = levenshtein_match("kitten", words(), ratio(8, 10), ratio(1, 1), 10);
    assert_eq!(matches.len(), 1);
    assert_eq!(matches[0].0, "kitten");
}

#[test]
fn distance_is_the_same_both_ways() {
    let pairs = [
        ("kitten", "sitting"),
        ("", "abc"),
        ("flaw", "lawn"),
        ("café", "cafe"),
        ("intention", "execution"),
    ];
    for (a, b) in pairs {
        assert_eq!(
            levenshtein_distance(a, b, None),
            levenshtein_distance(b, a, None)
        );
    }
    assert_eq!(levenshtein_distance("intention", "execution", None), 5);
    assert_eq!(levenshtein_distance("flaw", "lawn", None), 2);
}

#[test]
fn a_text_is_at_distance_zero_and_similarity_one_from_itself() {
    for s in ["", "a", "kitten", "こんにちは"] {
        assert_eq!(levenshtein_distance(s, s, None), 0);
        let r = levenshtein_similarity(s, s, None).unwrap();
        assert_eq!(r.numerator(), r.denominator());
    }
}

#[test]
fn empty_texts() {
    assert_eq!(levenshtein_distance("", "", None), 0);
    assert_eq!(levenshtein_distance("", "hello", None), 5);
    assert_eq!(levenshtein_distance("hello", "", None), 5);
    assert_eq!(levenshtein_distance("", "hello", Some(2)), 3);
    assert_eq!(levenshtein_distance("hello", "", Some(2)), 3);
    assert_eq!(levenshtein_distance("", "hello", Some(7)), 5);
    assert_eq!(levenshtein_distance("", "", Some(0)), 0);
}

#[test]
fn cutoff_caps_the_distance() {
    let pairs = [
        ("kitten", "sitting"),
        ("saturday", "sunday"),
        ("abc", "abc"),
        ("", "xyz"),
        ("short", "verylongstring"),
        ("aasvogel", "selsyn"),
    ];
    for (a, b) in pairs {
        let exact = levenshtein_distance(a, b, None);
        for cutoff in 0..16usize {
            assert_eq!(
                levenshtein_distance(a, b, Some(cutoff)),
                exact.min(cutoff + 1)
            );
        }
    }
    assert_eq!(levenshtein_distance("abc", "xyz", Some(usize::MAX)), 3);
}

#[test]
fn levenshtein_similarity_is_an_exact_fraction() {
    let r = levenshtein_similarity("kitten", "sitting", None).unwrap();
    assert_eq!((r.numerator(), r.denominator()), (4, 7));
    let r = levenshtein_similarity("", "", None).unwrap();
    assert_eq!((r.numerator(), r.denominator()), (1, 1));
    let r = levenshtein_similarity("abc", "xyz", None).unwrap();
    assert_eq!((r.numerator(), r.denominator()), (0, 3));
}

#[test]
fn similarity_cutoff_turns_into_a_distance_cutoff() {
    // (1 - 7/10) * 10 = 3: distances up to 3 are exact, larger ones are reported as 4.
    let r = levenshtein_similarity("abcdefghij", "abcdefgxyz", Some(ratio(7, 10))).unwrap();
    assert_eq!((r.numerator(), r.denominator()), (7, 10));
    let r = levenshtein_similarity("abcdefghij", "abcdefwxyz", Some(ratio(7, 10))).unwrap();
    assert_eq!((r.numerator(), r.denominator()), (6, 10));
    let r = levenshtein_similarity("abcdefghij", "qrstuvwxyz", Some(ratio(7, 10))).unwrap();
    assert_eq!((r.numerator(), r.denominator()), (6, 10));
    // (1 - 1/2) * 7 = 3.5, rounded up to 4.
    let r = levenshtein_similarity("abcdefg", "abcwxyz", Some(ratio(1, 2))).unwrap();
    assert_eq!((r.numerator(), r.denominator()), (3, 7));
    let r = levenshtein_similarity("abcdefg", "tuvwxyz", Some(ratio(1, 2))).unwrap();
    assert_eq!((r.numerator(), r.denominator()), (2, 7));
    // A cutoff of 0 asks for nothing, a cutoff of 1 stops at the first edit.
    let r = levenshtein_similarity("abc", "xyz", Some(ratio(0, 5))).unwrap();
    assert_eq!((r.numerator(), r.denominator()), (0, 3));
    let r = levenshtein_similarity("abc", "xyz", Some(ratio(5, 5))).unwrap();
    assert_eq!((r.numerator(), r.denominator()), (2, 3));
}

#[test]
fn similarity_cutoff_outside_the_unit_interval_is_rejected() {
    assert_eq!(
        levenshtein_similarity("a", "b", Some(ratio(3, 2))),
        Err(ConfigError::CutoffOutOfRange)
    );
    assert_eq!(
        levenshtein_similarity("a", "b", Some(ratio(-1, 2))),
        Err(ConfigError::CutoffOutOfRange)
    );
    assert_eq!(
        levenshtein_similarity("", "", Some(ratio(2, 1))),
        Err(ConfigError::CutoffOutOfRange)
    );
    assert_eq!(
        ConfigError::CutoffOutOfRange.message(),
        "cutoff must be between 0.0 and 1.0"
    );
}

#[test]
fn match_range_may_be_given_either_way_round() {
    let forward = levenshtein_match("kitten", words(), ratio(2, 10), ratio(8, 10), 10);
    let backward = levenshtein_match("kitten", words(), ratio(8, 10), ratio(2, 10), 10);
    assert_eq!(shown(&forward), shown(&backward));
    assert_eq!(forward.len(), 1);
    assert_eq!(forward[0].0, "sitting");
}

#[test]
fn match_breaks_ties_by_text_whatever_the_input_order() {
    let one = vec!["bat".to_string(), "cat".to_string(), "aat".to_string(), "xat".to_string()];
    let two = vec!["xat".to_string(), "aat".to_string(), "cat".to_string(), "bat".to_string()];
    let first = levenshtein_match("hat", one, ratio(0, 1), ratio(1, 1), 3);
    let second = levenshtein_match("hat", two, ratio(0, 1), ratio(1, 1), 3);
    assert_eq!(shown(&first), shown(&second));
    let names: Vec<&str> = first.iter().map(|m| m.0.as_str()).collect();
    assert_eq!(names, vec!["aat", "bat", "cat"]);
}

#[test]
fn match_limit_and_duplicates() {
    let twice = vec!["kitten".to_string(), "mitten".to_string(), "kitten".to_string()];
    let all = levenshtein_match("kitten", twice.clone(), ratio(0, 1), ratio(1, 1), 10);
    let names: Vec<&str> = all.iter().map(|m| m.0.as_str()).collect();
    assert_eq!(names, vec!["kitten", "kitten", "mitten"]);
    let none = levenshtein_match("kitten", twice.clone(), ratio(0, 1), ratio(1, 1), 0);
    assert!(none.is_empty());
    let empty = levenshtein_match("kitten", Vec::new(), ratio(0, 1), ratio(1, 1), 5);
    assert!(empty.is_empty());
    let out_of_reach = levenshtein_match("kitten", twice, ratio(3, 2), ratio(2, 1), 5);
    assert!(out_of_reach.is_empty());
}

#[test]
fn match_scenario_apple() {
    let strings = vec![
        "apple".to_string(),
        "apples".to_string(),
        "aple".to_string(),
        "appliance".to_string(),
    ];
    let result = levenshtein_match("apple", strings, ratio(0, 1), ratio(1, 1), 4);
    assert_eq!(result.len(), 4);
    assert_eq!(result[0].0, "apple");
    assert_eq!(score_float(&result[0].1), 1.0);
    assert_eq!(result[1].0, "apples");
    assert_eq!(parts(&result[1].1), (5, 6));
    assert_eq!(result[2].0, "aple");
    assert_eq!(result[3].0, "appliance");
}

#[test]
fn similarity_cutoff_with_parts_beyond_64_bits() {
    let scale: i128 = 1 << 100;
    let seven_tenths = ratio(7 * scale, 10 * scale);
    let r = levenshtein_similarity("abcdefghij", "abcdefgxyz", Some(seven_tenths)).unwrap();
    assert_eq!((r.numerator(), r.denominator()), (7, 10));
    let r = levenshtein_similarity("abcdefghij", "abcdefwxyz", Some(seven_tenths)).unwrap();
    assert_eq!((r.numerator(), r.denominator()), (6, 10));
    let r = levenshtein_similarity("abcdefghij", "qrstuvwxyz", Some(seven_tenths)).unwrap();
    assert_eq!((r.numerator(), r.denominator()), (6, 10));
    let half = ratio(scale, 2 * scale);
    let r = levenshtein_similarity("abcdefg", "tuvwxyz", Some(half)).unwrap();
    assert_eq!((r.numerator(), r.denominator()), (2, 7));
    let one = ratio(i128::MAX, i128::MAX);
    let r = levenshtein_similarity("abc", "xyz", Some(one)).unwrap();
    assert_eq!((r.numerator(), r.denominator()), (2, 3));
    let none = ratio(0, i128::MAX);
    let r = levenshtein_similarity("abc", "xyz", Some(none)).unwrap();
    assert_eq!((r.numerator(), r.denominator()), (0, 3));
}

#[test]
fn match_with_bounds_beyond_64_bits() {
    let scale: i128 = 1 << 100;
    let half = ratio(scale, 2 * scale);
    let found = levenshtein_match("kitten", words(), half, ratio(scale, scale), 10);
    let names: Vec<&str> = found.iter().map(|m| m.0.as_str()).collect();
    assert_eq!(names, vec!["kitten", "sitting"]);
    let found = levenshtein_match("kitten", words(), ratio(-scale, 1), ratio(scale, 1), 10);
    assert_eq!(found.len(), 4);
}

#[test]
fn match_returns_exact_scores_for_all_it_keeps() {
    let strings = vec![
        "kit".to_string(),
        "kitchen".to_string(),
        "mitten".to_string(),
        "hello".to_string(),
        "bitten".to_string(),
        "kitten".to_string(),
    ];
    let found = levenshtein_match("kitten", strings, ratio(1, 2), ratio(9, 10), 10);
    let listed = shown(&found);
    let listed: Vec<(&str, i128, i128)> =
        listed.iter().map(|m| (m.0.as_str(), m.1, m.2)).collect();
    assert_eq!(
        listed,
        vec![("bitten", 5, 6), ("mitten", 5, 6), ("kitchen", 5, 7), ("kit", 3, 6)]
    );
}

#[test]
fn levenshtein_similarity_lies_between_zero_and_one() {
    let texts = ["", "a", "ab", "kitten", "sitting", "こんにちは", "konnichiwa", "zzzzzzzzzzzz"];
    for a in texts {
        for b in texts {
            for cutoff in [None, Some(ratio(0, 1)), Some(ratio(1, 3)), Some(ratio(1, 1))] {
                let r = levenshtein_similarity(a, b, cutoff).unwrap();
                assert!(0 <= r.numerator() && r.numerator() <= r.denominator());
                assert!((0.0..=1.0).contains(&float(&r)));
            }
        }
    }
}
