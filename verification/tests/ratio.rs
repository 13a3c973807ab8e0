use marhta::ranking::rank;
use marhta::ratio::Ratio;
use marhta::score::Score;
use marhta::wide::Nat;

fn ratio(num: i128, den: i128) -> Ratio {
    Ratio::new(num, den).unwrap()
}

fn score(num: i128, den: i128) -> Score {
    Score::from_ratio(&ratio(num, den))
}

/// The number that limbs of 32 bits stand for, the least significant first.
fn number(limbs: &[u32]) -> i128 {
    limbs.iter().rev().fold(0i128, |acc, &limb| acc * (1i128 << 32) + limb as i128)
}

/// Numerator and denominator of a score whose parts fit 128 bits.
fn parts(s: &Score) -> (i128, i128) {
    let (gain, loss, den) = s.parts();
    (number(&gain) - number(&loss), number(&den))
}

fn score_float(s: &Score) -> f64 {
    let (num, den) = parts(s);
    num as f64 / den as f64
}

/// Texts and the parts of their scores.
fn shown(ranked: &[(String, Score)]) -> Vec<(String, i128, i128)> {
    ranked
        .iter()
        .map(|m| {
            let (num, den) = parts(&m.1);
            (m.0.clone(), num, den)
        })
        .collect()
}

#[test]
fn a_ratio_needs_a_positive_denominator() {
    assert!(Ratio::new(1, 0).is_none());
    assert!(Ratio::new(1, -2).is_none());
    assert!(Ratio::new(i128::MIN, 1).is_none());
    let r = Ratio::new(-3, 4).unwrap();
    assert_eq!((r.numerator(), r.denominator()), (-3, 4));
    let r = Ratio::new(i128::MAX, i128::MAX).unwrap();
    assert_eq!((r.numerator(), r.denominator()), (i128::MAX, i128::MAX));
}

#[test]
fn ratios_compare_as_numbers() {
    assert!(ratio(1, 2).is_le(&ratio(2, 4)));
    assert!(ratio(2, 4).is_le(&ratio(1, 2)));
    assert!(!ratio(1, 2).is_lt(&ratio(2, 4)));
    assert!(ratio(1, 3).is_lt(&ratio(1, 2)));
    assert!(!ratio(1, 2).is_le(&ratio(1, 3)));
    assert!(ratio(-1, 2).is_lt(&ratio(-1, 3)));
    assert!(!ratio(-1, 3).is_le(&ratio(-1, 2)));
    assert!(ratio(-1, 2).is_lt(&ratio(0, 5)));
    assert!(ratio(0, 5).is_le(&ratio(0, 7)));
    assert!(ratio(0, 1).is_lt(&ratio(1, 1000)));
    assert!(!ratio(7, 3).is_le(&ratio(9, 4)));
    assert!(ratio(9, 4).is_lt(&ratio(7, 3)));
    assert!(ratio(355, 113).is_lt(&ratio(22, 7)));
    assert!(ratio(21, 13).is_lt(&ratio(13, 8)));
    assert!(ratio(21, 13).is_lt(&ratio(34, 21)));
    assert!(ratio(34, 21).is_lt(&ratio(13, 8)));
}

#[test]
fn ratios_compare_without_overflow() {
    let big = i128::MAX;
    assert!(ratio(big - 1, big).is_lt(&ratio(big, big)));
    assert!(ratio(big, big).is_le(&ratio(1, 1)));
    assert!(ratio(1, 1).is_le(&ratio(big, big)));
    assert!(ratio(big - 2, big - 1).is_lt(&ratio(big - 1, big)));
    assert!(ratio(-big, 1).is_lt(&ratio(-big + 1, 1)));
    assert!(ratio(-big, big).is_le(&ratio(-1, 1)));
    assert!(ratio(1, big).is_lt(&ratio(1, big - 1)));
    assert!(ratio(-1, big - 1).is_lt(&ratio(-1, big)));
    assert!(!ratio(big, 1).is_le(&ratio(big - 1, 1)));
}

#[test]
fn rank_filters_sorts_and_cuts() {
    let scored = vec![
        ("pear".to_string(), score(1, 2)),
        ("fig".to_string(), score(3, 4)),
        ("apple".to_string(), score(2, 4)),
        ("kiwi".to_string(), score(1, 10)),
        ("plum".to_string(), score(9, 10)),
        ("date".to_string(), score(3, 4)),
    ];
    let all = rank(&scored, ratio(0, 1), ratio(1, 1), 10);
    let names: Vec<&str> = all.iter().map(|m| m.0.as_str()).collect();
    assert_eq!(names, vec!["plum", "date", "fig", "apple", "pear", "kiwi"]);
    assert_eq!(parts(&all[3].1), (2, 4));
    assert_eq!(parts(&all[4].1), (1, 2));

    let some = rank(&scored, ratio(3, 4), ratio(1, 2), 10);
    let names: Vec<&str> = some.iter().map(|m| m.0.as_str()).collect();
    assert_eq!(names, vec!["date", "fig", "apple", "pear"]);

    let top = rank(&scored, ratio(0, 1), ratio(1, 1), 2);
    let names: Vec<&str> = top.iter().map(|m| m.0.as_str()).collect();
    assert_eq!(names, vec!["plum", "date"]);

    assert!(rank(&scored, ratio(0, 1), ratio(1, 1), 0).is_empty());
    assert!(rank(&Vec::new(), ratio(0, 1), ratio(1, 1), 3).is_empty());
    assert!(rank(&scored, ratio(95, 100), ratio(1, 1), 3).is_empty());
}

#[test]
fn rank_orders_texts_by_code_point() {
    let scored = vec![
        ("é".to_string(), score(1, 1)),
        ("z".to_string(), score(1, 1)),
        ("".to_string(), score(1, 1)),
        ("Z".to_string(), score(1, 1)),
        ("ab".to_string(), score(1, 1)),
        ("a".to_string(), score(1, 1)),
        ("😀".to_string(), score(1, 1)),
        ("\u{ffff}".to_string(), score(1, 1)),
    ];
    let all = rank(&scored, ratio(1, 1), ratio(1, 1), 10);
    let names: Vec<&str> = all.iter().map(|m| m.0.as_str()).collect();
    assert_eq!(names, vec!["", "Z", "a", "ab", "z", "é", "\u{ffff}", "😀"]);
    let mut by_std: Vec<String> = scored.iter().map(|m| m.0.clone()).collect();
    by_std.sort();
    let names: Vec<String> = all.iter().map(|m| m.0.clone()).collect();
    assert_eq!(names, by_std);
}

#[test]
fn rank_takes_equal_numbers_for_equal_scores() {
    let scored = vec![
        ("c".to_string(), score(2, 4)),
        ("a".to_string(), score(3, 6)),
        ("b".to_string(), score(1, 2)),
        ("d".to_string(), score(-1, 2)),
    ];
    let all = rank(&scored, ratio(-1, 1), ratio(1, 1), 10);
    assert_eq!(
        shown(&all),
        vec![
            ("a".to_string(), 3, 6),
            ("b".to_string(), 1, 2),
            ("c".to_string(), 2, 4),
            ("d".to_string(), -1, 2)
        ]
    );
}

#[test]
fn wide_numbers_add_multiply_and_compare() {
    let big = Nat::from_u128(u128::MAX);
    let one = Nat::from_u128(1);
    let next = big.plus(&one);
    assert_eq!(next.limbs(), vec![0, 0, 0, 0, 1]);
    let square = next.times(&next);
    let limbs = square.limbs();
    assert_eq!(limbs[8], 1);
    assert!(limbs.iter().enumerate().all(|(i, &limb)| i == 8 || limb == 0));
    assert!(big.at_most(&next) && !next.at_most(&big));
    assert!(next.at_most(&square) && !square.at_most(&next));
    assert!(big.at_most(&big.copy()));
    let product = Nat::from_u128(123_456_789_012_345_678_901).times(&Nat::from_u128(987_654_321));
    assert_eq!(number(&product.limbs()), 123_456_789_012_345_678_901i128 * 987_654_321);
    let small = Nat::from_u128(0xffff_ffff).times_small(0xffff_ffff);
    assert_eq!(number(&small.limbs()), 0xffff_ffffi128 * 0xffff_ffff);
    let zero = Nat::from_u128(0);
    assert!(zero.at_most(&one) && !one.at_most(&zero));
    assert_eq!(number(&zero.times(&big).limbs()), 0);
}

#[test]
fn scores_compare_as_numbers() {
    assert!(score(1, 2).is_le(&score(2, 4)) && score(2, 4).is_le(&score(1, 2)));
    assert!(score(1, 3).is_lt(&score(1, 2)));
    assert!(score(-1, 2).is_lt(&score(-1, 3)));
    assert!(score(-1, 2).is_lt(&score(0, 5)));
    assert!(!score(7, 3).is_le(&score(9, 4)));
    let big = i128::MAX;
    assert!(score(big - 1, big).is_lt(&score(big, big)));
    assert!(score(-big, 1).is_lt(&score(-big + 1, 1)));
    assert_eq!(parts(&score(-3, 4)), (-3, 4));
    assert_eq!(parts(&score(-3, 4).copy()), (-3, 4));
}

#[test]
fn rank_takes_the_ends_of_the_range_in() {
    let scored = vec![
        ("low".to_string(), score(1, 5)),
        ("mid".to_string(), score(1, 2)),
        ("high".to_string(), score(4, 5)),
        ("below".to_string(), score(19, 100)),
        ("above".to_string(), score(81, 100)),
    ];
    let kept = rank(&scored, ratio(2, 10), ratio(8, 10), 10);
    let names: Vec<&str> = kept.iter().map(|m| m.0.as_str()).collect();
    assert_eq!(names, vec!["high", "mid", "low"]);
}
