use logsentry::similarity::{dice_coefficient, levenshtein, Fraction};

#[test]
fn levenshtein_classic_pairs() {
    assert_eq!(levenshtein("kitten", "sitting"), 3);
    assert_eq!(levenshtein("flaw", "lawn"), 2);
    assert_eq!(levenshtein("admin", "api"), 3);
    assert_eq!(levenshtein("admin", "id"), 4);
}

#[test]
fn levenshtein_identity_and_empty() {
    assert_eq!(levenshtein("request", "request"), 0);
    assert_eq!(levenshtein("", ""), 0);
    assert_eq!(levenshtein("", "abc"), 3);
    assert_eq!(levenshtein("abcd", ""), 4);
}

#[test]
fn levenshtein_counts_characters_not_bytes() {
    assert_eq!(levenshtein("héllo", "hello"), 1);
    assert_eq!(levenshtein("", "日本"), 2);
}

#[test]
fn levenshtein_symmetric_and_triangle_on_samples() {
    let words = ["select", "delete", "admin", "api", "", "x"];
    for a in words.iter() {
        for b in words.iter() {
            assert_eq!(levenshtein(a, b), levenshtein(b, a));
            for c in words.iter() {
                assert!(levenshtein(a, c) <= levenshtein(a, b) + levenshtein(b, c));
            }
        }
    }
}

#[test]
fn dice_identical_is_one() {
    assert_eq!(dice_coefficient("abc", "abc"), Fraction { num: 1, den: 1 });
    let single = dice_coefficient("x", "x");
    assert_eq!(single.num, single.den);
}

#[test]
fn dice_empty_is_zero() {
    assert_eq!(dice_coefficient("", "abc").num, 0);
    assert_eq!(dice_coefficient("abc", "").num, 0);
    assert_eq!(dice_coefficient("", "").num, 0);
}

#[test]
fn dice_exact_values() {
    assert_eq!(dice_coefficient("night", "nacht"), Fraction { num: 2, den: 8 });
    assert_eq!(dice_coefficient("a", "b"), Fraction { num: 0, den: 1 });
    assert_eq!(dice_coefficient("aaaa", "aa"), Fraction { num: 6, den: 4 });
    assert_eq!(dice_coefficient("admin", "api"), Fraction { num: 0, den: 6 });
}
