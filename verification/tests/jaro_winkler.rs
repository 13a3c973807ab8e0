use marhta::error::ConfigError;
use marhta::jaro_winkler::{
    jaro_winkler_distance, jaro_winkler_match, jaro_winkler_similarity, matching_characters,
};
use marhta::ratio::Ratio;
use marhta::score::Score;

fn ratio(num: i128, den: i128) -> Ratio {
    Ratio::new(num, den).unwrap()
}

/// The number that limbs of 32 bits stand for, the least significant first.
fn number(limbs: &[u32]) -> i128 {
    limbs.iter().rev().fold(0i128, |acc, &limb| acc * (1i128 << 32) + limb as i128)
}

/// Numerator and denominator of a score whose parts fit 128 bits.
fn parts(s: &Score) -> (i128, i128) {
    let (gain, loss, den) = s.parts();
    (number(&gain) - number(&loss), number(&den))
}

fn float(s: &Score) -> f64 {
    let (num, den) = parts(s);
    num as f64 / den as f64
}

/// Texts and the parts of their scores.
fn shown(ranked: &[(String, Score)]) -> Vec<(String, i128, i128)> {
    ranked
        .iter()
        .map(|m| {
            let (num, den) = parts(&m.1);
            (m.0.clone(), num, den)
        })
        .collect()
}

/// The similarity as a float, for a prefix weight given in tenths.
fn similarity(s1: &str, s2: &str, tenths: i128, max_prefix: usize) -> f64 {
    float(&jaro_winkler_similarity(s1, s2, ratio(tenths, 10), max_prefix).unwrap())
}

fn close(left: f64, right: f64) -> bool {
    (left - right).abs() <= 0.001
}

/// A fraction in lowest terms, for comparing values rather than their parts.
fn lowest_terms(r: &Score) -> (i128, i128) {
    let (num, den) = parts(r);
    let (mut a, mut b) = (num.abs(), den);
    while b != 0 {
        (a, b) = (b, a % b);
    }
    (num / a, den / a)
}

#[test]
fn test_jaro_winkler() {
    assert!(close(similarity("MARTHA", "MARHTA", 1, 4), 0.961));
    assert!(close(similarity("DWAYNE", "DUANE", 1, 4), 0.840));
    assert!(close(similarity("ABCD", "EFGH", 1, 4), 0.0));

    assert!(close(similarity("kitten", "sitting", 1, 4), 0.746));
    assert!(close(similarity("saturday", "sunday", 1, 4), 0.7175));
    assert_eq!(similarity("", "", 1, 4), 1.0);
    assert_eq!(similarity("abc", "", 1, 4), 0.0);
    assert_eq!(similarity("", "xyz", 1, 4), 0.0);
    assert_eq!(similarity("abc", "abc", 1, 4), 1.0);

    assert_eq!(similarity("test", "", 1, 4), 0.0);
    assert_eq!(similarity("", "test", 1, 4), 0.0);
    assert!(close(similarity("abc", "acb", 1, 4), 0.5999));
    assert!(close(similarity("abc", "bca", 1, 4), 0.0));

    let long_a = "a".repeat(1000);
    let long_b = "b".repeat(1000);
    assert_eq!(similarity(&long_a, &long_b, 1, 4), 0.0);

    assert!(close(similarity("café", "cafe", 1, 4), 0.883));
    assert!(close(similarity("こんにちは", "konnichiwa", 1, 4), 0.000));

    assert!(close(similarity("MARTHA", "MARHTA", 0, 4), 0.944));
    assert!(close(similarity("MARTHA", "MARHTA", 1, 4), 0.961));
    assert!(close(similarity("MARTHA", "MARHTA", 2, 4), 0.977));
}

#[test]
fn test_jaro_winkler_match() {
    let strings = vec![
        "apple".to_string(),
        "apples".to_string(),
        "aple".to_string(),
        "appliance".to_string(),
    ];

    let result =
        jaro_winkler_match("apple", strings, ratio(0, 1), ratio(1, 1), 4, ratio(1, 10), 4).unwrap();
    assert_eq!(result.len(), 4);
    assert_eq!(result[0].0, "apple");
    assert!(close(float(&result[0].1), 1.0));
    assert_eq!(result[1].0, "apples");
    assert!(close(float(&result[1].1), 0.966));
}

#[test]
fn test_max_prefix() {
    assert!(close(similarity("prefix", "prefixx", 1, 4), 0.971));
    assert!(close(similarity("prefix", "prefixx", 1, 6), 0.980));
}

#[test]
fn matches_and_transpositions() {
    assert_eq!(matching_characters("MARTHA", "MARHTA", 2), (6, 1));
    assert_eq!(matching_characters("DWAYNE", "DUANE", 2), (4, 0));
    assert_eq!(matching_characters("saturday", "sunday", 3), (5, 2));
    assert_eq!(matching_characters("ABCD", "EFGH", 1), (0, 0));
    assert_eq!(matching_characters("abc", "bca", 0), (0, 0));
    assert_eq!(matching_characters("abc", "bca", 2), (3, 2));
    assert_eq!(matching_characters("", "abc", 5), (0, 0));
    assert_eq!(matching_characters("abc", "", 5), (0, 0));
    // Every pair out of order counts once: six code points in reverse make 15 pairs.
    assert_eq!(matching_characters("abcdef", "fedcba", 5), (6, 15));
    // A code point of the second text is matched once only.
    assert_eq!(matching_characters("aaa", "a", 3), (1, 0));
    assert_eq!(matching_characters("aa", "aaa", usize::MAX), (2, 0));
}

#[test]
fn jaro_winkler_similarity_is_an_exact_fraction() {
    let r = jaro_winkler_similarity("MARTHA", "MARHTA", ratio(1, 10), 4).unwrap();
    assert_eq!(parts(&r), (6228, 6480));
    assert_eq!(lowest_terms(&r), (173, 180));
    let r = jaro_winkler_similarity("DWAYNE", "DUANE", ratio(1, 10), 4).unwrap();
    assert_eq!(lowest_terms(&r), (21, 25));
    let r = jaro_winkler_similarity("saturday", "sunday", ratio(1, 10), 4).unwrap();
    assert_eq!(lowest_terms(&r), (287, 400));
    let r = jaro_winkler_similarity("prefix", "prefixx", ratio(1, 10), 6).unwrap();
    assert_eq!(lowest_terms(&r), (103, 105));
    let r = jaro_winkler_similarity("", "", ratio(1, 10), 4).unwrap();
    assert_eq!(parts(&r), (1, 1));
    let r = jaro_winkler_similarity("", "x", ratio(1, 10), 4).unwrap();
    assert_eq!(parts(&r), (0, 1));
    let r = jaro_winkler_similarity("ABCD", "EFGH", ratio(1, 10), 4).unwrap();
    assert_eq!(parts(&r), (0, 1));
}

#[test]
fn distance_is_one_less_the_similarity() {
    let d = jaro_winkler_distance("MARTHA", "MARHTA", ratio(1, 10), 4).unwrap();
    assert_eq!(lowest_terms(&d), (7, 180));
    let d = jaro_winkler_distance("", "", ratio(1, 10), 4).unwrap();
    assert_eq!(parts(&d), (0, 1));
    let d = jaro_winkler_distance("abc", "", ratio(1, 10), 4).unwrap();
    assert_eq!(parts(&d), (1, 1));
    let d = jaro_winkler_distance("abc", "abc", ratio(1, 10), 4).unwrap();
    assert_eq!(parts(&d).0, 0);
    for (a, b) in [("kitten", "sitting"), ("café", "cafe"), ("abc", "bca")] {
        let s = jaro_winkler_similarity(a, b, ratio(1, 10), 4).unwrap();
        let d = jaro_winkler_distance(a, b, ratio(1, 10), 4).unwrap();
        assert_eq!(parts(&d).1, parts(&s).1);
        assert_eq!(parts(&d).0 + parts(&s).0, parts(&s).1);
    }
}

#[test]
fn a_text_has_similarity_one_to_itself() {
    for s in ["a", "aa", "abcabc", "MARTHA", "こんにちは"] {
        for (weight, max_prefix) in [(ratio(0, 1), 4), (ratio(1, 10), 4), (ratio(1, 4), 9)] {
            let r = jaro_winkler_similarity(s, s, weight, max_prefix).unwrap();
            assert_eq!(parts(&r).0, parts(&r).1);
            let d = jaro_winkler_distance(s, s, weight, max_prefix).unwrap();
            assert_eq!(parts(&d).0, 0);
        }
    }
}

#[test]
fn prefix_weight_outside_its_range_is_rejected() {
    let refused = Some(ConfigError::PrefixWeightOutOfRange);
    assert_eq!(jaro_winkler_similarity("a", "b", ratio(3, 10), 4).err(), refused);
    assert_eq!(jaro_winkler_similarity("", "", ratio(-1, 10), 4).err(), refused);
    assert_eq!(jaro_winkler_distance("a", "b", ratio(26, 100), 4).err(), refused);
    assert_eq!(
        jaro_winkler_match("a", vec!["b".to_string()], ratio(0, 1), ratio(1, 1), 5, ratio(1, 2), 4)
            .err(),
        refused
    );
    assert_eq!(
        jaro_winkler_match("a", Vec::new(), ratio(0, 1), ratio(1, 1), 5, ratio(1, 2), 4).err(),
        refused
    );
    assert!(jaro_winkler_similarity("a", "b", ratio(1, 4), 4).is_ok());
    assert!(jaro_winkler_similarity("a", "b", ratio(0, 7), 4).is_ok());
    assert_eq!(
        ConfigError::PrefixWeightOutOfRange.message(),
        "prefix_weight must be between 0.0 and 0.25"
    );
}

#[test]
fn scores_outside_the_unit_interval() {
    // Fifteen transpositions among six matches outweigh the matches.
    let r = jaro_winkler_similarity("abcdefxxxxxx", "fedcbayyyyyy", ratio(1, 10), 4).unwrap();
    assert_eq!(lowest_terms(&r), (-1, 6));
    // A prefix of ten code points at weight 1/4 boosts by more than the whole gap.
    let r = jaro_winkler_similarity("abcdefghij", "abcdefghijk", ratio(1, 4), 10).unwrap();
    assert_eq!(lowest_terms(&r), (23, 22));
    // With at most four code points of prefix, the same pair stays below 1.
    let r = jaro_winkler_similarity("abcdefghij", "abcdefghijk", ratio(1, 4), 4).unwrap();
    assert_eq!(lowest_terms(&r), (1, 1));
}

#[test]
fn jaro_winkler_range_may_be_given_either_way_round() {
    let strings = vec![
        "apple".to_string(),
        "apples".to_string(),
        "aple".to_string(),
        "appliance".to_string(),
        "zebra".to_string(),
    ];
    let forward = jaro_winkler_match(
        "apple",
        strings.clone(),
        ratio(2, 10),
        ratio(96, 100),
        10,
        ratio(1, 10),
        4,
    )
    .unwrap();
    let backward = jaro_winkler_match(
        "apple",
        strings,
        ratio(96, 100),
        ratio(2, 10),
        10,
        ratio(1, 10),
        4,
    )
    .unwrap();
    assert_eq!(shown(&forward), shown(&backward));
    let names: Vec<&str> = forward.iter().map(|m| m.0.as_str()).collect();
    assert_eq!(names, vec!["aple", "appliance"]);
}

#[test]
fn jaro_winkler_ties_come_in_dictionary_order() {
    let one = vec!["bd".to_string(), "bc".to_string(), "ba".to_string(), "xy".to_string()];
    let two = vec!["xy".to_string(), "ba".to_string(), "bd".to_string(), "bc".to_string()];
    let first =
        jaro_winkler_match("bz", one, ratio(0, 1), ratio(1, 1), 3, ratio(1, 10), 4).unwrap();
    let second =
        jaro_winkler_match("bz", two, ratio(0, 1), ratio(1, 1), 3, ratio(1, 10), 4).unwrap();
    assert_eq!(shown(&first), shown(&second));
    let names: Vec<&str> = first.iter().map(|m| m.0.as_str()).collect();
    assert_eq!(names, vec!["ba", "bc", "bd"]);
    assert_eq!(parts(&first[0].1), parts(&first[1].1));
    assert_eq!(parts(&first[1].1), parts(&first[2].1));
}

#[test]
fn jaro_winkler_limit_and_duplicates() {
    let twice = vec!["apple".to_string(), "aple".to_string(), "apple".to_string()];
    let all =
        jaro_winkler_match("apple", twice.clone(), ratio(0, 1), ratio(1, 1), 10, ratio(1, 10), 4)
            .unwrap();
    let names: Vec<&str> = all.iter().map(|m| m.0.as_str()).collect();
    assert_eq!(names, vec!["apple", "apple", "aple"]);
    let none =
        jaro_winkler_match("apple", twice, ratio(0, 1), ratio(1, 1), 0, ratio(1, 10), 4).unwrap();
    assert!(none.is_empty());
}

#[test]
fn jaro_winkler_similarity_lies_between_zero_and_one_for_usual_texts() {
    let texts = ["", "a", "ab", "MARTHA", "MARHTA", "kitten", "sitting", "こんにちは", "abcabc"];
    for a in texts {
        for b in texts {
            for weight in [ratio(0, 1), ratio(1, 10), ratio(1, 4)] {
                let r = jaro_winkler_similarity(a, b, weight, 4).unwrap();
                assert!(0 <= parts(&r).0 && parts(&r).0 <= parts(&r).1);
                let d = jaro_winkler_distance(a, b, weight, 4).unwrap();
                assert!(0 <= parts(&d).0 && parts(&d).0 <= parts(&d).1);
            }
        }
    }
}

#[test]
fn texts_of_any_length_are_scored() {
    // One match among 70,000 code points: jaro = (1/70000 + 1/1 + 1/1) / 3.
    let long = "a".repeat(70_000);
    let r = jaro_winkler_similarity(&long, "a", ratio(1, 10), 4).unwrap();
    assert_eq!(parts(&r), (1_470_009, 2_100_000));
    let d = jaro_winkler_distance(&long, "a", ratio(1, 10), 4).unwrap();
    assert_eq!(parts(&d), (629_991, 2_100_000));
    let r = jaro_winkler_similarity("a", &long, ratio(0, 1), 4).unwrap();
    assert_eq!(parts(&r), (140_001, 210_000));
    let found = jaro_winkler_match(
        "a",
        vec![long.clone(), "a".to_string(), "b".to_string()],
        ratio(1, 2),
        ratio(1, 1),
        5,
        ratio(1, 10),
        4,
    )
    .unwrap();
    let names: Vec<usize> = found.iter().map(|m| m.0.len()).collect();
    assert_eq!(names, vec![1, 70_000]);
}

#[test]
fn weights_of_any_fineness_are_taken() {
    let scale: i128 = 1 << 100;
    // 1/10 written with parts beyond 64 bits gives the same number as 1/10.
    let plain = jaro_winkler_similarity("MARTHA", "MARHTA", ratio(1, 10), 4).unwrap();
    let fine = jaro_winkler_similarity("MARTHA", "MARHTA", ratio(scale, 10 * scale), 4).unwrap();
    assert!(plain.is_le(&fine) && fine.is_le(&plain));
    assert!(!plain.is_lt(&fine) && !fine.is_lt(&plain));
    // A weight a hair above 1/10 gives a score a hair above, and one just below, below.
    let above = jaro_winkler_similarity("MARTHA", "MARHTA", ratio(scale + 1, 10 * scale), 4);
    assert!(plain.is_lt(&above.unwrap()));
    let below = jaro_winkler_similarity("MARTHA", "MARHTA", ratio(scale - 1, 10 * scale), 4);
    assert!(below.unwrap().is_lt(&plain));
    // The finest weights: the largest denominator, and the largest valid numerator over it.
    let least = jaro_winkler_similarity("MARTHA", "MARHTA", ratio(1, i128::MAX), 4).unwrap();
    let none = jaro_winkler_similarity("MARTHA", "MARHTA", ratio(0, 1), 4).unwrap();
    assert!(none.is_lt(&least));
    assert!(least.is_lt(&plain));
    assert!(jaro_winkler_similarity("a", "b", ratio(i128::MAX / 4, i128::MAX), 4).is_ok());
    assert_eq!(
        jaro_winkler_similarity("a", "b", ratio(i128::MAX / 4 + 1, i128::MAX), 4).err(),
        Some(ConfigError::PrefixWeightOutOfRange)
    );
}
