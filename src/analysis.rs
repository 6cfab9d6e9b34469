//! Labelling batches of log lines and collecting the ones labelled High.
use vstd::prelude::*;

use crate::chars::str_views;
use crate::scoring::{analyze_log_and_determine_criticality, line_criticality, Criticality};

verus! {

/// The labels of `lines` against the dictionary, in order.
pub open spec fn verdicts(lines: Seq<Seq<char>>, ds: Seq<Seq<char>>, d: Seq<Seq<char>>) -> Seq<Criticality> {
    lines.map_values(|l: Seq<char>| line_criticality(l, ds, d))
}

/// The lines of `lines` labelled High, in order.
pub open spec fn high_lines(lines: Seq<Seq<char>>, ds: Seq<Seq<char>>, d: Seq<Seq<char>>) -> Seq<Seq<char>>
    decreases lines.len(),
{
    if lines.len() == 0 {
        seq![]
    } else if line_criticality(lines.last(), ds, d) == Criticality::High {
        high_lines(lines.drop_last(), ds, d).push(lines.last())
    } else {
        high_lines(lines.drop_last(), ds, d)
    }
}

/// End of the range that starts at `start` and spans at most `limit` lines (all
/// remaining lines without a limit) of `len` lines.
pub open spec fn range_end(len: int, start: int, limit: Option<usize>) -> int {
    match limit {
        Some(l) => if start + l < len {
            start + l
        } else {
            len
        },
        None => len,
    }
}

fn end_of_range(len: usize, start: usize, limit: Option<usize>) -> (r: usize)
    requires
        start <= len,
    ensures
        r as int == range_end(len as int, start as int, limit),
        start <= r <= len,
{
    match limit {
        Some(l) => if l < len - start {
            start + l
        } else {
            len
        },
        None => len,
    }
}

/// Labels the lines `logs[start..end]`.
fn label_range(logs: &[String], start: usize, end: usize, delimiters: &[String], dictionary: &[String]) -> (r: Vec<Criticality>)
    requires
        start <= end <= logs@.len(),
    ensures
        r@ == verdicts(str_views(logs@).subrange(start as int, end as int), str_views(delimiters@), str_views(dictionary@)),
{
    let ghost lines = str_views(logs@).subrange(start as int, end as int);
    let mut out: Vec<Criticality> = Vec::new();
    let mut i: usize = start;
    while i < end
        invariant
            start <= i <= end <= logs@.len(),
            lines == str_views(logs@).subrange(start as int, end as int),
            out@.len() == i - start,
            forall|k: int| 0 <= k < out@.len() ==> #[trigger] out@[k] == line_criticality(
                lines[k],
                str_views(delimiters@),
                str_views(dictionary@),
            ),
        decreases end - i,
    {
        let analysis = analyze_log_and_determine_criticality(logs[i].as_str(), delimiters, dictionary);
        out.push(analysis.criticality);
        i = i + 1;
    }
    assert(out@ =~= verdicts(lines, str_views(delimiters@), str_views(dictionary@)));
    out
}

/// Labels the first `limit` log lines (all of them without a limit).
pub fn analyze_logs(logs: &[String], delimiters: &[String], dictionary: &[String], limit: Option<usize>) -> (r: Vec<Criticality>)
    ensures
        r@ == verdicts(
            str_views(logs@).subrange(0, range_end(logs@.len() as int, 0, limit)),
            str_views(delimiters@),
            str_views(dictionary@),
        ),
{
    let end = end_of_range(logs.len(), 0, limit);
    label_range(logs, 0, end, delimiters, dictionary)
}

/// Labels at most `limit` log lines (all remaining ones without a limit) from
/// `start_index` on; nothing when `start_index` is past the end.
pub fn analyze_logs_from_index(
    logs: &[String],
    start_index: usize,
    delimiters: &[String],
    dictionary: &[String],
    limit: Option<usize>,
) -> (r: Vec<Criticality>)
    ensures
        start_index >= logs@.len() ==> r@.len() == 0,
        start_index < logs@.len() ==> r@ == verdicts(
            str_views(logs@).subrange(
                start_index as int,
                range_end(logs@.len() as int, start_index as int, limit),
            ),
            str_views(delimiters@),
            str_views(dictionary@),
        ),
{
    if start_index >= logs.len() {
        return Vec::new();
    }
    let end = end_of_range(logs.len(), start_index, limit);
    label_range(logs, start_index, end, delimiters, dictionary)
}

/// The lines among `logs[start..end]` that are labelled High, in order.
fn collect_high_lines(logs: &[String], start: usize, end: usize, delimiters: &[String], dictionary: &[String]) -> (r: Vec<String>)
    requires
        start <= end <= logs@.len(),
    ensures
        str_views(r@) == high_lines(
            str_views(logs@).subrange(start as int, end as int),
            str_views(delimiters@),
            str_views(dictionary@),
        ),
{
    let ghost all = str_views(logs@);
    let ghost ds = str_views(delimiters@);
    let ghost d = str_views(dictionary@);
    let mut out: Vec<String> = Vec::new();
    let mut i: usize = start;
    while i < end
        invariant
            start <= i <= end <= logs@.len(),
            all == str_views(logs@),
            ds == str_views(delimiters@),
            d == str_views(dictionary@),
            str_views(out@) == high_lines(all.subrange(start as int, i as int), ds, d),
        decreases end - i,
    {
        let ghost pre = all.subrange(start as int, i + 1);
        assert(pre.drop_last() =~= all.subrange(start as int, i as int));
        assert(pre.last() == logs@[i as int]@);
        let analysis = analyze_log_and_determine_criticality(logs[i].as_str(), delimiters, dictionary);
        if analysis.criticality == Criticality::High {
            let ghost before = out@;
            out.push(logs[i].clone());
            assert(str_views(out@) =~= str_views(before).push(logs@[i as int]@));
        }
        i = i + 1;
    }
    out
}

/// The lines among the first `limit` log lines (all of them without a limit) that
/// are labelled High, in order.
pub fn analyze_logs_and_collect_malicious(
    logs: &[String],
    delimiters: &[String],
    dictionary: &[String],
    limit: Option<usize>,
) -> (r: Vec<String>)
    ensures
        str_views(r@) == high_lines(
            str_views(logs@).subrange(0, range_end(logs@.len() as int, 0, limit)),
            str_views(delimiters@),
            str_views(dictionary@),
        ),
{
    let end = end_of_range(logs.len(), 0, limit);
    collect_high_lines(logs, 0, end, delimiters, dictionary)
}

} // verus!
