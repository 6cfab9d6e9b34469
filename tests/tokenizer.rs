use logsentry::tokenizer::{log_line_tokens, remove_request_type_from_log, split_by_multiple_delimiters};

fn strings(v: &[&str]) -> Vec<String> {
    v.iter().map(|s| s.to_string()).collect()
}

#[test]
fn strip_method() {
    assert_eq!(remove_request_type_from_log("GET /api/user?id=5"), "/api/user?id=5");
    assert_eq!(remove_request_type_from_log("POST /a b  c"), "/a b  c");
    assert_eq!(remove_request_type_from_log("GET"), "");
    assert_eq!(remove_request_type_from_log(""), "");
    assert_eq!(remove_request_type_from_log(" lead"), "lead");
}

#[test]
fn split_emits_empty_tokens_at_delimiters() {
    let d = strings(&["/", "?", "&", "="]);
    assert_eq!(split_by_multiple_delimiters("/api/user?id=5", &d), strings(&["", "api", "user", "id", "5"]));
    assert_eq!(split_by_multiple_delimiters("a//b", &d), strings(&["a", "", "b"]));
    assert_eq!(split_by_multiple_delimiters("a/", &d), strings(&["a"]));
    assert_eq!(split_by_multiple_delimiters("", &d), strings(&[]));
}

#[test]
fn split_first_listed_delimiter_wins() {
    assert_eq!(split_by_multiple_delimiters("xaby", &strings(&["a", "ab"])), strings(&["x", "by"]));
    assert_eq!(split_by_multiple_delimiters("xaby", &strings(&["ab", "a"])), strings(&["x", "y"]));
}

#[test]
fn split_ignores_empty_delimiter() {
    assert_eq!(split_by_multiple_delimiters("a-b", &strings(&["", "-"])), strings(&["a", "b"]));
    assert_eq!(split_by_multiple_delimiters("ab", &strings(&[])), strings(&["ab"]));
}

#[test]
fn log_tokens_drop_method_and_empty_tokens() {
    let d = strings(&["/", "?", "&", "="]);
    assert_eq!(log_line_tokens("GET /api/user?id=5", &d), strings(&["api", "user", "id", "5"]));
}
