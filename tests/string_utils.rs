use logsentry::string_utils::{
    contains_any_substring, contains_substring, extract_bigrams, extract_trigrams, extract_unigrams,
    get_char_at, process_decoded_string, replace_substring, substring, tokenize_by_delimiter,
    tokenize_by_ngram, url_decode, url_remove,
};

fn strings(v: &[&str]) -> Vec<String> {
    v.iter().map(|s| s.to_string()).collect()
}

#[test]
fn char_at_counts_characters() {
    assert_eq!(get_char_at("héllo", 1), 'é');
    assert_eq!(get_char_at("héllo", 4), 'o');
}

#[test]
fn substring_clips_to_the_end() {
    assert_eq!(substring("hello", 1, 3), "ell");
    assert_eq!(substring("hello", 3, 10), "lo");
    assert_eq!(substring("hello", 10, 2), "");
    assert_eq!(substring("héllo", 0, 2), "hé");
}

#[test]
fn contains_substring_cases() {
    assert!(contains_substring("union select", "select"));
    assert!(!contains_substring("union", "select"));
    assert!(contains_substring("abc", ""));
    assert!(!contains_substring("", "a"));
}

#[test]
fn ngrams_of_a_word() {
    assert_eq!(tokenize_by_ngram("abcd", 2), strings(&["ab", "bc", "cd"]));
    assert_eq!(tokenize_by_ngram("ab", 3), strings(&[]));
    assert_eq!(tokenize_by_ngram("ab", 0), strings(&["", "", ""]));
    assert_eq!(extract_trigrams("abcd"), strings(&["abc", "bcd"]));
    assert_eq!(extract_bigrams("a"), strings(&[]));
    assert_eq!(extract_unigrams("xy"), strings(&["x", "y"]));
}

#[test]
fn replace_cases() {
    assert_eq!(replace_substring("aaa", "aa", "b"), "ba");
    assert_eq!(replace_substring("a.b.c", ".", "/"), "a/b/c");
    assert_eq!(replace_substring("ab", "", "-"), "-a-b-");
    assert_eq!(replace_substring("", "", "-"), "-");
    assert_eq!(replace_substring("abc", "x", "y"), "abc");
}

#[test]
fn split_on_one_delimiter_keeps_empty_pieces() {
    assert_eq!(tokenize_by_delimiter("a,b,", ","), strings(&["a", "b", ""]));
    assert_eq!(tokenize_by_delimiter("", ","), strings(&[""]));
    assert_eq!(tokenize_by_delimiter("a::b", "::"), strings(&["a", "b"]));
    assert_eq!(tokenize_by_delimiter("ab", ""), strings(&["", "a", "b", ""]));
}

#[test]
fn first_contained_substring() {
    assert_eq!(contains_any_substring("hello", &strings(&["xyz", "ll", "he"])), 1);
    assert_eq!(contains_any_substring("hello", &strings(&["xyz", "q"])), -1);
    assert_eq!(contains_any_substring("hello", &strings(&[])), -1);
}

#[test]
fn url_escapes() {
    assert_eq!(url_decode("a%20b%2Fc"), "a b/c");
    assert_eq!(url_remove("a%20b%2Fc"), "abc");
    assert_eq!(process_decoded_string("%+a", 0), "\n");
    assert_eq!(process_decoded_string("x%4", 1), "x");
    assert_eq!(url_decode("%e9"), "\u{e9}");
}
