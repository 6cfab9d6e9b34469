use logsentry::dictionary::{extract_unique_entries_from_logs, generate_or_load_dictionary};

fn strings(v: &[&str]) -> Vec<String> {
    v.iter().map(|s| s.to_string()).collect()
}

#[test]
fn dictionary_from_one_line() {
    let d = strings(&["/", "?", "&", "="]);
    let corpus = strings(&["GET /api/user?id=5"]);
    assert_eq!(extract_unique_entries_from_logs(&corpus, &d), strings(&["api", "user", "id", "5"]));
}

#[test]
fn dictionary_keeps_first_seen_order_without_duplicates() {
    let d = strings(&["/", "?", "&", "="]);
    let corpus = strings(&["GET /a/b?x=1", "POST /b/c?x=2", "", "PUT"]);
    assert_eq!(extract_unique_entries_from_logs(&corpus, &d), strings(&["a", "b", "x", "1", "c", "2"]));
}

#[test]
fn dictionary_build_twice_same() {
    let d = strings(&["/", "="]);
    let corpus = strings(&["GET /x=1/y", "GET /y=2"]);
    let first = extract_unique_entries_from_logs(&corpus, &d);
    let second = extract_unique_entries_from_logs(&corpus, &d);
    assert_eq!(first, second);
}

#[test]
fn load_stored_dictionary_skips_empty_lines() {
    let d = strings(&["/"]);
    let corpus = strings(&["GET /q"]);
    let stored = strings(&["a", "", "b"]);
    let (dict, rebuilt) = generate_or_load_dictionary(&corpus, &d, false, Some(&stored));
    assert_eq!(dict, strings(&["a", "b"]));
    assert!(!rebuilt);
}

#[test]
fn rebuild_when_forced_or_missing() {
    let d = strings(&["/"]);
    let corpus = strings(&["GET /q/r"]);
    let stored = strings(&["a"]);
    assert_eq!(generate_or_load_dictionary(&corpus, &d, true, Some(&stored)), (strings(&["q", "r"]), true));
    assert_eq!(generate_or_load_dictionary(&corpus, &d, false, None), (strings(&["q", "r"]), true));
}
