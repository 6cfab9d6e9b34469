//! The dictionary of tokens drawn from a corpus of known malicious log lines.
use vstd::prelude::*;

use crate::chars::str_views;
use crate::tokenizer::{
    lemma_nonempty_tokens,
    log_line_tokens,
    log_tokens,
    nonempty_tokens,
    split_tokens,
    strip_leading_field,
};

verus! {

/// `dict` with each token of `ts` that it does not hold yet appended, left to right.
pub open spec fn add_unique(dict: Seq<Seq<char>>, ts: Seq<Seq<char>>) -> Seq<Seq<char>>
    decreases ts.len(),
{
    if ts.len() == 0 {
        dict
    } else {
        let d = add_unique(dict, ts.drop_last());
        if d.contains(ts.last()) {
            d
        } else {
            d.push(ts.last())
        }
    }
}

/// The dictionary of a corpus: the tokens of its lines, in first-seen order, each
/// kept once.
pub open spec fn build_dictionary(lines: Seq<Seq<char>>, ds: Seq<Seq<char>>) -> Seq<Seq<char>>
    decreases lines.len(),
{
    if lines.len() == 0 {
        seq![]
    } else {
        add_unique(build_dictionary(lines.drop_last(), ds), log_tokens(lines.last(), ds))
    }
}

/// A token occurs in some line of the corpus.
pub open spec fn in_corpus(lines: Seq<Seq<char>>, ds: Seq<Seq<char>>, t: Seq<char>) -> bool {
    exists|i: int| 0 <= i < lines.len() && #[trigger] log_tokens(lines[i], ds).contains(t)
}

/// No token occurs twice.
pub open spec fn distinct(d: Seq<Seq<char>>) -> bool {
    forall|i: int, j: int| 0 <= i < j < d.len() ==> d[i] != d[j]
}

proof fn lemma_push_contains(d: Seq<Seq<char>>, x: Seq<char>, t: Seq<char>)
    ensures
        d.push(x).contains(t) <==> (d.contains(t) || t == x),
{
    if d.push(x).contains(t) {
        let k = choose|k: int| 0 <= k < d.len() + 1 && d.push(x)[k] == t;
        if k < d.len() {
            assert(d[k] == t);
        }
    }
    if d.contains(t) {
        let k = choose|k: int| 0 <= k < d.len() && d[k] == t;
        assert(d.push(x)[k] == t);
    }
    if t == x {
        assert(d.push(x)[d.len() as int] == t);
    }
}

proof fn lemma_add_unique(dict: Seq<Seq<char>>, ts: Seq<Seq<char>>)
    requires
        distinct(dict),
    ensures
        distinct(add_unique(dict, ts)),
        forall|t: Seq<char>| #[trigger] add_unique(dict, ts).contains(t) <==> (dict.contains(t) || ts.contains(t)),
    decreases ts.len(),
{
    if ts.len() > 0 {
        let init = ts.drop_last();
        lemma_add_unique(dict, init);
        let d = add_unique(dict, init);
        assert forall|t: Seq<char>| ts.contains(t) <==> (init.contains(t) || t == ts.last()) by {
            lemma_push_contains(init, ts.last(), t);
            assert(init.push(ts.last()) =~= ts);
        }
        assert forall|t: Seq<char>| #[trigger] add_unique(dict, ts).contains(t) <==> (dict.contains(t) || ts.contains(t)) by {
            lemma_push_contains(d, ts.last(), t);
            lemma_push_contains(init, ts.last(), t);
            assert(init.push(ts.last()) =~= ts);
            assert(d.contains(t) <==> (dict.contains(t) || init.contains(t)));
        }
    }
}

/// The dictionary holds each token of the corpus exactly once and nothing else,
/// and no empty token: its token set depends on the corpus and the delimiters
/// alone, so building it twice from them yields the same set.
pub proof fn lemma_dictionary_tokens(lines: Seq<Seq<char>>, ds: Seq<Seq<char>>)
    ensures
        distinct(build_dictionary(lines, ds)),
        forall|t: Seq<char>| #[trigger] build_dictionary(lines, ds).contains(t) <==> in_corpus(lines, ds, t),
        forall|k: int| 0 <= k < build_dictionary(lines, ds).len() ==> #[trigger] build_dictionary(lines, ds)[k].len() > 0,
    decreases lines.len(),
{
    if lines.len() > 0 {
        let init = lines.drop_last();
        lemma_dictionary_tokens(init, ds);
        let prev = build_dictionary(init, ds);
        let ts = log_tokens(lines.last(), ds);
        lemma_add_unique(prev, ts);
        lemma_nonempty_tokens(split_tokens(strip_leading_field(lines.last()), ds));
        let cur = build_dictionary(lines, ds);
        assert forall|t: Seq<char>| cur.contains(t) <==> in_corpus(lines, ds, t) by {
            if in_corpus(lines, ds, t) {
                let i = choose|i: int| 0 <= i < lines.len() && #[trigger] log_tokens(lines[i], ds).contains(t);
                if i < lines.len() - 1 {
                    assert(init[i] == lines[i]);
                    assert(in_corpus(init, ds, t));
                }
            }
            if in_corpus(init, ds, t) {
                let i = choose|i: int| 0 <= i < init.len() && #[trigger] log_tokens(init[i], ds).contains(t);
                assert(lines[i] == init[i]);
            }
            if ts.contains(t) {
                assert(log_tokens(lines[lines.len() - 1], ds).contains(t));
            }
        }
        assert forall|k: int| 0 <= k < cur.len() implies #[trigger] cur[k].len() > 0 by {
            assert(cur.contains(cur[k]));
            if prev.contains(cur[k]) {
                let j = choose|j: int| 0 <= j < prev.len() && prev[j] == cur[k];
                assert(prev[j].len() > 0);
            } else {
                let j = choose|j: int| 0 <= j < ts.len() && ts[j] == cur[k];
                assert(ts[j].len() > 0);
            }
        }
    }
}

fn holds_token(v: &Vec<String>, t: &String) -> (r: bool)
    ensures
        r == str_views(v@).contains(t@),
{
    let mut k: usize = 0;
    while k < v.len()
        invariant
            0 <= k <= v@.len(),
            forall|q: int| 0 <= q < k ==> v@[q]@ != t@,
        decreases v@.len() - k,
    {
        if v[k] == *t {
            assert(str_views(v@)[k as int] == t@);
            return true;
        }
        k = k + 1;
    }
    assert forall|q: int| 0 <= q < str_views(v@).len() implies str_views(v@)[q] != t@ by {}
    false
}

/// Builds the dictionary of a corpus: for each line, the request method is stripped,
/// the rest split on the delimiters, and every non-empty token not seen before is
/// appended.
pub fn extract_unique_entries_from_logs(log_entries: &[String], delimiters: &[String]) -> (r: Vec<String>)
    ensures
        str_views(r@) == build_dictionary(str_views(log_entries@), str_views(delimiters@)),
{
    let ghost lines = str_views(log_entries@);
    let ghost ds = str_views(delimiters@);
    let mut unique_entries: Vec<String> = Vec::new();
    let mut i: usize = 0;
    while i < log_entries.len()
        invariant
            0 <= i <= log_entries@.len(),
            lines == str_views(log_entries@),
            ds == str_views(delimiters@),
            str_views(unique_entries@) == build_dictionary(lines.take(i as int), ds),
        decreases log_entries@.len() - i,
    {
        let ghost pre = lines.take(i + 1);
        assert(pre.drop_last() =~= lines.take(i as int));
        assert(pre.last() == log_entries@[i as int]@);
        let tokens = log_line_tokens(log_entries[i].as_str(), delimiters);
        let ghost ts = str_views(tokens@);
        let ghost base = str_views(unique_entries@);
        let mut k: usize = 0;
        while k < tokens.len()
            invariant
                0 <= k <= tokens@.len(),
                ts == str_views(tokens@),
                str_views(unique_entries@) == add_unique(base, ts.take(k as int)),
            decreases tokens@.len() - k,
        {
            let ghost tk = ts.take(k + 1);
            assert(tk.drop_last() =~= ts.take(k as int));
            assert(tk.last() == tokens@[k as int]@);
            if !holds_token(&unique_entries, &tokens[k]) {
                let ghost before = unique_entries@;
                unique_entries.push(tokens[k].clone());
                assert(str_views(unique_entries@) =~= str_views(before).push(tokens@[k as int]@));
            }
            k = k + 1;
        }
        assert(ts.take(tokens@.len() as int) =~= ts);
        i = i + 1;
    }
    assert(lines.take(log_entries@.len() as int) =~= lines);
    unique_entries
}

/// Rebuilds the dictionary from the corpus when asked to, or when no stored copy is
/// given; otherwise takes the stored lines, without the empty ones, in their order.
/// The flag of the result says whether the dictionary was rebuilt (and so should be
/// stored again).
pub fn generate_or_load_dictionary(
    log_entries: &[String],
    delimiters: &[String],
    update_dictionary: bool,
    stored: Option<&[String]>,
) -> (r: (Vec<String>, bool))
    ensures
        r.1 == (update_dictionary || stored is None),
        r.1 ==> str_views(r.0@) == build_dictionary(str_views(log_entries@), str_views(delimiters@)),
        !r.1 ==> str_views(r.0@) == nonempty_tokens(str_views(stored->0@)),
{
    match stored {
        Some(lines) if !update_dictionary => {
            let ghost lv = str_views(lines@);
            let mut dictionary: Vec<String> = Vec::new();
            let mut k: usize = 0;
            while k < lines.len()
                invariant
                    0 <= k <= lines@.len(),
                    lv == str_views(lines@),
                    str_views(dictionary@) == nonempty_tokens(lv.take(k as int)),
                decreases lines@.len() - k,
            {
                let ghost pre = lv.take(k + 1);
                assert(pre.drop_last() =~= lv.take(k as int));
                assert(pre.last() == lines@[k as int]@);
                if !lines[k].as_str().is_empty() {
                    let ghost before = dictionary@;
                    dictionary.push(lines[k].clone());
                    assert(str_views(dictionary@) =~= str_views(before).push(lines@[k as int]@));
                }
                k = k + 1;
            }
            assert(lv.take(lines@.len() as int) =~= lv);
            (dictionary, false)
        },
        _ => (extract_unique_entries_from_logs(log_entries, delimiters), true),
    }
}

} // verus!
