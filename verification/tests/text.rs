use marhta::jaro_winkler::{common_prefix_len, matching_between};
use marhta::levenshtein::distance_between;
use marhta::text::{code_points, precedes};

#[test]
fn code_points_are_not_bytes() {
    assert_eq!(code_points(""), Vec::<char>::new());
    assert_eq!(code_points("abc"), vec!['a', 'b', 'c']);
    assert_eq!(code_points("café"), vec!['c', 'a', 'f', 'é']);
    assert_eq!(code_points("こんにちは").len(), 5);
    assert_eq!(code_points("😀a"), vec!['😀', 'a']);
}

#[test]
fn dictionary_order_of_code_points() {
    let le = |a: &str, b: &str| precedes(&code_points(a), &code_points(b));
    assert!(le("", ""));
    assert!(le("", "a"));
    assert!(!le("a", ""));
    assert!(le("a", "a"));
    assert!(le("a", "ab"));
    assert!(!le("ab", "a"));
    assert!(le("ab", "b"));
    assert!(!le("b", "ab"));
    assert!(le("Z", "a"));
    assert!(le("z", "é"));
    assert!(!le("é", "z"));
    assert!(le("\u{ffff}", "😀"));
    for (a, b) in [("apple", "apples"), ("aple", "apple"), ("x", "x"), ("é", "e")] {
        assert_eq!(le(a, b), a <= b);
        assert_eq!(le(b, a), b <= a);
    }
}

#[test]
fn distance_between_code_points() {
    let d = |a: &str, b: &str, cutoff| distance_between(&code_points(a), &code_points(b), cutoff);
    assert_eq!(d("kitten", "sitting", None), 3);
    assert_eq!(d("kitten", "sitting", Some(1)), 2);
    assert_eq!(d("kitten", "sitting", Some(3)), 3);
    assert_eq!(d("", "", Some(0)), 0);
    assert_eq!(d("naïve", "naive", None), 1);
}

#[test]
fn matches_between_code_points() {
    let m = |a: &str, b: &str, r| matching_between(&code_points(a), &code_points(b), r);
    assert_eq!(m("MARTHA", "MARHTA", 2), (6, 1));
    assert_eq!(m("MARTHA", "MARHTA", 0), (4, 0));
    assert_eq!(m("café", "cafe", 1), (3, 0));
    assert_eq!(m("ab", "ba", 1), (2, 1));
    assert_eq!(m("ab", "ba", 0), (0, 0));
}

#[test]
fn common_prefix_up_to_a_limit() {
    let p = |a: &str, b: &str, most| common_prefix_len(&code_points(a), &code_points(b), most);
    assert_eq!(p("prefix", "prefixx", 4), 4);
    assert_eq!(p("prefix", "prefixx", 6), 6);
    assert_eq!(p("prefix", "prefixx", 60), 6);
    assert_eq!(p("prefix", "prefixx", 0), 0);
    assert_eq!(p("abc", "abd", 4), 2);
    assert_eq!(p("abc", "xbc", 4), 0);
    assert_eq!(p("", "abc", 4), 0);
    assert_eq!(p("éa", "éb", 4), 1);
}
