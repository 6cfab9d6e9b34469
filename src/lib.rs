//! Anomaly flagging for request logs: a dictionary of tokens is built from known
//! malicious log lines, and each incoming line is labelled Low, Medium or High by
//! how closely its tokens resemble the dictionary (edit distance and bigram
//! overlap). A small state machine takes in the lines appended to a watched log
//! file and scores only the new ones; a hash store decides when the dictionary
//! must be rebuilt.
pub mod analysis;
pub mod bignat;
pub mod chars;
pub mod dictionary;
pub mod hash_store;
pub mod ingestion;
pub mod scoring;
pub mod similarity;
pub mod string_utils;
pub mod tokenizer;
