use logsentry::analysis::{analyze_logs, analyze_logs_and_collect_malicious, analyze_logs_from_index};
use logsentry::dictionary::extract_unique_entries_from_logs;
use logsentry::scoring::{analyze_log_and_determine_criticality, determine_criticality, is_malicious, Criticality};
use logsentry::similarity::Fraction;

fn strings(v: &[&str]) -> Vec<String> {
    v.iter().map(|s| s.to_string()).collect()
}

fn setup() -> (Vec<String>, Vec<String>) {
    let d = strings(&["/", "?", "&", "="]);
    let dict = extract_unique_entries_from_logs(&strings(&["GET /api/user?id=5"]), &d);
    (d, dict)
}

#[test]
fn thresholds_at_zero_half_one() {
    assert_eq!(determine_criticality(4, 0, 4), Criticality::Low);
    assert_eq!(determine_criticality(0, 0, 4), Criticality::Medium);
    assert_eq!(determine_criticality(0, 1_000_000, 4), Criticality::High);
}

#[test]
fn thresholds_edges() {
    // composite 0.3 exactly is Medium, 0.7 exactly is High
    assert_eq!(determine_criticality(10, 600_000, 10), Criticality::Medium);
    assert_eq!(determine_criticality(10, 599_999, 10), Criticality::Low);
    assert_eq!(determine_criticality(6, 1_000_000, 10), Criticality::High);
    assert_eq!(determine_criticality(7, 1_000_000, 10), Criticality::Medium);
    // an empty dictionary counts the distance part as 0
    assert_eq!(determine_criticality(0, 0, 0), Criticality::Low);
    assert_eq!(determine_criticality(0, 2_000_000, 0), Criticality::High);
}

#[test]
fn exact_match_line_is_high() {
    let (d, dict) = setup();
    let a = analyze_log_and_determine_criticality("GET /api/user?id=5", &d, &dict);
    assert_eq!(a.criticality, Criticality::High);
    assert_eq!(a.tokens.len(), 4);
    for t in a.tokens.iter() {
        assert_eq!(t.min_distance, 0);
        assert_eq!(t.max_overlap, Fraction { num: 1, den: 1 });
    }
    assert_eq!(a.average_distance, 0);
    assert_eq!(a.max_token_length, 4);
}

#[test]
fn admin_line_scores_lower() {
    let (d, dict) = setup();
    let a = analyze_log_and_determine_criticality("POST /api/admin?id=999", &d, &dict);
    let names: Vec<&str> = a.tokens.iter().map(|t| t.token.as_str()).collect();
    assert_eq!(names, vec!["api", "admin", "id", "999"]);
    let admin = &a.tokens[1];
    assert_eq!(admin.min_distance, 3);
    assert_eq!(admin.max_overlap.num, 0);
    for entry in dict.iter() {
        assert!(logsentry::similarity::levenshtein("admin", entry) > 0);
    }
    assert_eq!(a.total_distance, 6);
    // shown rounded down; the label uses 6 / 4 = 1.5: 0.5 * (1 - 1.5 / 4) + 0.5 * 0.5 = 0.5625
    assert_eq!(a.average_distance, 1);
    assert_eq!(a.criticality, Criticality::Medium);
}

#[test]
fn label_uses_exact_average_distance() {
    // tokens "ab" (distance 0, overlap 1) and "b" (distance 1, overlap 0), longest entry 2:
    // 0.5 * (1 - 0.5 / 2) + 0.5 * 0.5 = 0.625
    let d = strings(&["/"]);
    let dict = strings(&["ab"]);
    let a = analyze_log_and_determine_criticality(" ab/b", &d, &dict);
    assert_eq!(a.tokens.len(), 2);
    assert_eq!(a.total_distance, 1);
    assert_eq!(a.average_distance, 0);
    assert_eq!(a.criticality, Criticality::Medium);
    assert!(!is_malicious(" ab/b", &d, &dict));
}

#[test]
fn score_exactly_at_high_threshold_is_high() {
    // one token "abcd": nearest entry at distance 4, longest entry 65 characters, best
    // overlap 6/13: 0.5 * (1 - 4 / 65) + 0.5 * 6 / 13 = 91 / 130 = 0.7
    let d = strings(&[]);
    let long = "y".repeat(65);
    for middle in ["", "wxyz"] {
        let dict = vec!["abcdxxxxxxx".to_string(), middle.to_string(), long.clone()];
        let a = analyze_log_and_determine_criticality("GET abcd", &d, &dict);
        assert_eq!(a.tokens.len(), 1);
        assert_eq!(a.tokens[0].min_distance, 4);
        assert_eq!(a.tokens[0].max_overlap, Fraction { num: 6, den: 13 });
        assert_eq!(a.max_token_length, 65);
        assert_eq!(a.criticality, Criticality::High);
        assert!(is_malicious("GET abcd", &d, &dict));
    }
}

#[test]
fn empty_dictionary_is_low() {
    let d = strings(&["/"]);
    let a = analyze_log_and_determine_criticality("GET /a/b", &d, &strings(&[]));
    assert_eq!(a.tokens.len(), 2);
    assert_eq!(a.tokens[0].min_distance, 0);
    assert_eq!(a.tokens[0].max_overlap, Fraction { num: 0, den: 1 });
    assert_eq!(a.criticality, Criticality::Low);
}

#[test]
fn line_without_tokens_is_medium() {
    let (d, dict) = setup();
    let a = analyze_log_and_determine_criticality("GET", &d, &dict);
    assert_eq!(a.tokens.len(), 0);
    assert_eq!(a.criticality, Criticality::Medium);
}

#[test]
fn malicious_means_high() {
    let (d, dict) = setup();
    assert!(is_malicious("GET /api/user?id=5", &d, &dict));
    assert!(!is_malicious("POST /api/admin?id=999", &d, &dict));
}

#[test]
fn batch_labels_and_collection() {
    let (d, dict) = setup();
    let logs = strings(&["GET /api/user?id=5", "POST /api/admin?id=999", "GET /user/api"]);
    assert_eq!(
        analyze_logs(&logs, &d, &dict, None),
        vec![Criticality::High, Criticality::Medium, Criticality::High]
    );
    assert_eq!(analyze_logs(&logs, &d, &dict, Some(1)), vec![Criticality::High]);
    assert_eq!(analyze_logs_from_index(&logs, 1, &d, &dict, None), vec![Criticality::Medium, Criticality::High]);
    assert_eq!(analyze_logs_from_index(&logs, 1, &d, &dict, Some(1)), vec![Criticality::Medium]);
    assert_eq!(analyze_logs_from_index(&logs, 5, &d, &dict, None), vec![]);
    assert_eq!(
        analyze_logs_and_collect_malicious(&logs, &d, &dict, None),
        strings(&["GET /api/user?id=5", "GET /user/api"])
    );
    assert_eq!(analyze_logs_and_collect_malicious(&logs, &d, &dict, Some(2)), strings(&["GET /api/user?id=5"]));
}
