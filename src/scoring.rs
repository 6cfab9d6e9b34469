//! Scoring a log line against the dictionary and labelling it Low, Medium or High.
use vstd::prelude::*;

use crate::bignat::{big_add, big_from, big_lt, big_mul, value};
use crate::chars::{chars_of, chars_of_all, str_views};
use crate::similarity::{
    edit_distance,
    edit_distance_chars,
    lemma_overlap_bounds,
    max2,
    min2,
    overlap_chars,
    overlap_den,
    overlap_num,
    Fraction,
};
use crate::tokenizer::{log_line_tokens, log_tokens};

verus! {

/// Risk label of a log line.
#[derive(Clone, Copy, Debug, PartialEq, Eq, Structural)]
pub enum Criticality {
    Low,
    Medium,
    High,
}

/// Scale of the thresholds and of the overlap argument of `determine_criticality`:
/// those are written in millionths.
pub const OVERLAP_SCALE: u32 = 1_000_000;

/// Composite score, in millionths, from which a line is Medium (0.3).
pub const MEDIUM_FROM: u32 = 300_000;

/// Composite score, in millionths, from which a line is High (0.7).
pub const HIGH_FROM: u32 = 700_000;

/// Order of the labels: Low < Medium < High.
pub open spec fn rank(c: Criticality) -> int {
    match c {
        Criticality::Low => 0,
        Criticality::Medium => 1,
        Criticality::High => 2,
    }
}

/// Label of the composite score `num / den` (with `den > 0`): below `MEDIUM_FROM`
/// is Low, below `HIGH_FROM` is Medium, anything else High.
pub open spec fn level(num: int, den: int) -> Criticality {
    if OVERLAP_SCALE * num < MEDIUM_FROM * den {
        Criticality::Low
    } else if OVERLAP_SCALE * num < HIGH_FROM * den {
        Criticality::Medium
    } else {
        Criticality::High
    }
}

/// Numerator of the composite score: half the normalised distance
/// `1 - distance / max_length` (taken as 0 when `max_length` is 0) plus half the
/// overlap `overlap / OVERLAP_SCALE`.
pub open spec fn composite_num(distance: int, overlap: int, max_length: int) -> int {
    if max_length == 0 {
        overlap
    } else {
        OVERLAP_SCALE * (max_length - distance) + overlap * max_length
    }
}

/// Denominator of the composite score; positive.
pub open spec fn composite_den(max_length: int) -> int {
    if max_length == 0 {
        2 * OVERLAP_SCALE
    } else {
        2 * OVERLAP_SCALE * max_length
    }
}

/// Label of an average distance, an average overlap (in millionths) and the length
/// of the longest dictionary token.
pub open spec fn criticality_of(distance: int, overlap: int, max_length: int) -> Criticality {
    level(composite_num(distance, overlap, max_length), composite_den(max_length))
}

/// The label only grows with the composite score: a score of 0 is Low, 1/2 is
/// Medium and 1 is High.
pub proof fn lemma_level_monotonic(n1: int, d1: int, n2: int, d2: int)
    requires
        d1 > 0,
        d2 > 0,
        n1 * d2 <= n2 * d1,
    ensures
        rank(level(n1, d1)) <= rank(level(n2, d2)),
        level(0, 1) == Criticality::Low,
        level(1, 2) == Criticality::Medium,
        level(1, 1) == Criticality::High,
{
    assert(1_000_000 * n2 < 300_000 * d2 ==> 1_000_000 * n1 < 300_000 * d1) by (nonlinear_arith)
        requires
            d1 > 0,
            d2 > 0,
            n1 * d2 <= n2 * d1,
    ;
    assert(1_000_000 * n2 < 700_000 * d2 ==> 1_000_000 * n1 < 700_000 * d1) by (nonlinear_arith)
        requires
            d1 > 0,
            d2 > 0,
            n1 * d2 <= n2 * d1,
    ;
}

/// Maps an average distance, an average overlap (in millionths) and the length of
/// the longest dictionary token to a label, through the composite score.
pub fn determine_criticality(
    levenshtein_distance: usize,
    dice_coefficient: u32,
    max_levenshtein_distance: usize,
) -> (r: Criticality)
    ensures
        r == criticality_of(
            levenshtein_distance as int,
            dice_coefficient as int,
            max_levenshtein_distance as int,
        ),
{
    let d = levenshtein_distance as i128;
    let a = dice_coefficient as i128;
    let m = max_levenshtein_distance as i128;
    let scale = OVERLAP_SCALE as i128;
    let (num, den) = if m == 0 {
        (a, 2 * scale)
    } else {
        assert(a * m <= 0x1_0000_0000 * 0x1_0000_0000_0000_0000) by (nonlinear_arith)
            requires
                0 <= a < 0x1_0000_0000,
                0 <= m < 0x1_0000_0000_0000_0000,
        ;
        assert(scale * m <= 1_000_000 * 0x1_0000_0000_0000_0000) by (nonlinear_arith)
            requires
                scale == 1_000_000,
                0 <= m < 0x1_0000_0000_0000_0000,
        ;
        assert(scale * d <= 1_000_000 * 0x1_0000_0000_0000_0000) by (nonlinear_arith)
            requires
                scale == 1_000_000,
                0 <= d < 0x1_0000_0000_0000_0000,
        ;
        (scale * (m - d) + a * m, 2 * scale * m)
    };
    let medium = MEDIUM_FROM as i128;
    let high = HIGH_FROM as i128;
    if scale * num < medium * den {
        Criticality::Low
    } else if scale * num < high * den {
        Criticality::Medium
    } else {
        Criticality::High
    }
}

/// Smallest edit distance from `t` to an entry of the dictionary `d`; 0 for an
/// empty dictionary.
pub open spec fn min_distance(t: Seq<char>, d: Seq<Seq<char>>) -> nat
    decreases d.len(),
{
    if d.len() == 0 {
        0
    } else if d.len() == 1 {
        edit_distance(t, d[0])
    } else {
        min2(min_distance(t, d.drop_last()), edit_distance(t, d.last()))
    }
}

/// Length of the longest entry of `d`; 0 for an empty dictionary.
pub open spec fn max_token_length(d: Seq<Seq<char>>) -> nat
    decreases d.len(),
{
    if d.len() == 0 {
        0
    } else {
        max2(max_token_length(d.drop_last()), d.last().len())
    }
}

/// Sum over the tokens `ts` of their smallest distance to `d`.
pub open spec fn total_distance(ts: Seq<Seq<char>>, d: Seq<Seq<char>>) -> nat
    decreases ts.len(),
{
    if ts.len() == 0 {
        0
    } else {
        total_distance(ts.drop_last(), d) + min_distance(ts.last(), d)
    }
}

/// Average (rounded down) of the smallest distances of the tokens; 0 without tokens.
pub open spec fn average_distance(ts: Seq<Seq<char>>, d: Seq<Seq<char>>) -> int {
    if ts.len() == 0 {
        0
    } else {
        total_distance(ts, d) as int / ts.len() as int
    }
}

/// Best overlap of `t` against the entries of `d`, as an exact fraction
/// `(num, den)`: the largest `overlap_num / overlap_den` over the entries (the
/// first of equal ones); `(0, 1)` for an empty dictionary.
pub open spec fn best_overlap(t: Seq<char>, d: Seq<Seq<char>>) -> (int, int)
    decreases d.len(),
{
    if d.len() == 0 {
        (0, 1)
    } else {
        let (p, q) = best_overlap(t, d.drop_last());
        let p2 = overlap_num(t, d.last());
        let q2 = overlap_den(t, d.last());
        if p2 * q > p * q2 {
            (p2, q2)
        } else {
            (p, q)
        }
    }
}

/// Sum over the tokens `ts` of their best overlap with `d`, as an exact fraction
/// `(num, den)`; `(0, 1)` without tokens.
pub open spec fn overlap_sum(ts: Seq<Seq<char>>, d: Seq<Seq<char>>) -> (int, int)
    decreases ts.len(),
{
    if ts.len() == 0 {
        (0, 1)
    } else {
        let (a, b) = overlap_sum(ts.drop_last(), d);
        let (p, q) = best_overlap(ts.last(), d);
        (a * q + p * b, b * q)
    }
}

/// Numerator of the composite score of a line whose `n` tokens have a total smallest
/// distance `t` and a total best overlap `on / od`, against a dictionary whose
/// longest entry has `l` characters: half the normalised distance `1 - (t / n) / l`
/// (taken as 0 when `l` is 0) plus half the average overlap `(on / od) / n`, all
/// exact. Without tokens both averages are 0.
pub open spec fn line_score_num(t: int, on: int, od: int, n: int, l: int) -> int {
    if n == 0 {
        composite_num(0, 0, l)
    } else if l == 0 {
        on
    } else {
        (n * l - t) * od + on * l
    }
}

/// Denominator of the composite score of a line; positive when `od` is.
pub open spec fn line_score_den(od: int, n: int, l: int) -> int {
    if n == 0 {
        composite_den(l)
    } else if l == 0 {
        2 * od * n
    } else {
        2 * n * l * od
    }
}

/// Label of a log line against a dictionary, from the exact averages over its
/// tokens of their smallest distance and best overlap.
pub open spec fn line_criticality(line: Seq<char>, ds: Seq<Seq<char>>, d: Seq<Seq<char>>) -> Criticality {
    let ts = log_tokens(line, ds);
    let l = max_token_length(d) as int;
    let (on, od) = overlap_sum(ts, d);
    level(
        line_score_num(total_distance(ts, d) as int, on, od, ts.len() as int, l),
        line_score_den(od, ts.len() as int, l),
    )
}

pub proof fn lemma_best_overlap_bounds(t: Seq<char>, d: Seq<Seq<char>>)
    ensures
        best_overlap(t, d).1 > 0,
        0 <= best_overlap(t, d).0 <= 2 * best_overlap(t, d).1,
    decreases d.len(),
{
    if d.len() > 0 {
        lemma_best_overlap_bounds(t, d.drop_last());
        lemma_overlap_bounds(t, d.last());
    }
}

/// Whether the composite score of a line with `n > 0` tokens is below `theta`
/// millionths, from its total distance `t`, its total overlap `value(on) /
/// value(od)` and the longest entry's length `l`.
fn score_below(t: u128, on: &Vec<u64>, od: &Vec<u64>, n: usize, l: usize, theta: u32) -> (r: bool)
    requires
        n > 0,
    ensures
        r == (OVERLAP_SCALE * line_score_num(t as int, value(on@) as int, value(od@) as int, n as int, l as int)
            < theta * line_score_den(value(od@) as int, n as int, l as int)),
{
    let ghost a = value(on@) as int;
    let ghost b = value(od@) as int;
    let ghost (ti, ni, li, th) = (t as int, n as int, l as int, theta as int);
    let twice = 2 * (theta as u128);
    if l == 0 {
        let lhs = big_mul(on, 1_000_000);
        let rhs = big_mul(&big_mul(od, twice), n as u128);
        assert(1_000_000 * a < th * (2 * b * ni) <==> a * 1_000_000 < b * (2 * th) * ni) by (nonlinear_arith);
        big_lt(&lhs, &rhs)
    } else {
        let d_scaled = big_mul(od, 1_000_000);
        let lhs = big_add(&big_mul(&big_mul(&d_scaled, n as u128), l as u128), &big_mul(&big_mul(on, 1_000_000), l as u128));
        let rhs = big_add(&big_mul(&big_mul(&big_mul(od, twice), n as u128), l as u128), &big_mul(&d_scaled, t));
        let ghost l1 = 1_000_000 * ((ni * li - ti) * b + a * li);
        let ghost r1 = th * (2 * ni * li * b);
        let ghost l2 = b * 1_000_000 * ni * li + a * 1_000_000 * li;
        let ghost r2 = b * (2 * th) * ni * li + b * 1_000_000 * ti;
        assert(l1 == b * 1_000_000 * ni * li - b * 1_000_000 * ti + a * 1_000_000 * li) by (nonlinear_arith)
            requires
                l1 == 1_000_000 * ((ni * li - ti) * b + a * li),
        ;
        assert(r1 == b * (2 * th) * ni * li) by (nonlinear_arith)
            requires
                r1 == th * (2 * ni * li * b),
        ;
        big_lt(&lhs, &rhs)
    }
}

/// Label of a line from the totals over its `n` tokens and the longest dictionary
/// entry's length `l`.
fn line_level(t: u128, on: &Vec<u64>, od: &Vec<u64>, n: usize, l: usize) -> (r: Criticality)
    ensures
        r == level(
            line_score_num(t as int, value(on@) as int, value(od@) as int, n as int, l as int),
            line_score_den(value(od@) as int, n as int, l as int),
        ),
{
    if n == 0 {
        return determine_criticality(0, 0, l);
    }
    if score_below(t, on, od, n, l, MEDIUM_FROM) {
        Criticality::Low
    } else if score_below(t, on, od, n, l, HIGH_FROM) {
        Criticality::Medium
    } else {
        Criticality::High
    }
}

/// How a token of a log line matched the dictionary.
#[derive(Debug)]
pub struct TokenScore {
    pub token: String,
    /// Smallest edit distance to a dictionary entry.
    pub min_distance: usize,
    /// Largest bigram overlap with a dictionary entry, exact.
    pub max_overlap: Fraction,
}

/// The analysis of one log line: its label and the per-token diagnostics behind it.
#[derive(Debug)]
pub struct LineAnalysis {
    pub criticality: Criticality,
    pub tokens: Vec<TokenScore>,
    /// Sum over the tokens of their smallest distance.
    pub total_distance: u128,
    /// Average smallest distance, rounded down; shown for diagnostics only, the
    /// label is computed from the exact average.
    pub average_distance: usize,
    pub max_token_length: usize,
}

/// `p / q < p2 / q2` for non-negative numerators and positive denominators.
fn fraction_less(p: i128, q: i128, p2: i128, q2: i128) -> (r: bool)
    requires
        p >= 0,
        q > 0,
        p2 >= 0,
        q2 > 0,
    ensures
        r == (p * q2 < p2 * q),
{
    let left = big_mul(&big_from(p as u128), q2 as u128);
    let right = big_mul(&big_from(p2 as u128), q as u128);
    big_lt(&left, &right)
}

/// Scores of one token against the characters of each dictionary entry.
fn score_token(t: &Vec<char>, dict: &Vec<Vec<char>>, Ghost(d): Ghost<Seq<Seq<char>>>) -> (r: (usize, Fraction))
    requires
        d.len() == dict@.len(),
        forall|k: int| 0 <= k < d.len() ==> #[trigger] dict@[k]@ == d[k],
    ensures
        r.0 as nat == min_distance(t@, d),
        r.1.num == best_overlap(t@, d).0,
        r.1.den == best_overlap(t@, d).1,
{
    let mut best_distance: usize = 0;
    let mut best = Fraction { num: 0, den: 1 };
    let mut j: usize = 0;
    while j < dict.len()
        invariant
            0 <= j <= dict@.len(),
            d.len() == dict@.len(),
            forall|k: int| 0 <= k < d.len() ==> #[trigger] dict@[k]@ == d[k],
            best_distance as nat == min_distance(t@, d.take(j as int)),
            best.num == best_overlap(t@, d.take(j as int)).0,
            best.den == best_overlap(t@, d.take(j as int)).1,
        decreases dict@.len() - j,
    {
        let ghost pre = d.take(j + 1);
        assert(pre.drop_last() =~= d.take(j as int));
        assert(pre.last() == d[j as int]);
        assert(dict@[j as int]@ == d[j as int]);
        let dist = edit_distance_chars(t, &dict[j]);
        if j == 0 || dist < best_distance {
            best_distance = dist;
        }
        let f = overlap_chars(t, &dict[j]);
        proof {
            lemma_overlap_bounds(t@, d[j as int]);
            lemma_best_overlap_bounds(t@, d.take(j as int));
        }
        if fraction_less(best.num, best.den, f.num, f.den) {
            best = f;
        }
        j = j + 1;
    }
    assert(d.take(dict@.len() as int) =~= d);
    (best_distance, best)
}

/// Length of the longest dictionary entry, in characters.
fn longest_entry(dict: &Vec<Vec<char>>, Ghost(d): Ghost<Seq<Seq<char>>>) -> (r: usize)
    requires
        d.len() == dict@.len(),
        forall|k: int| 0 <= k < d.len() ==> #[trigger] dict@[k]@ == d[k],
    ensures
        r as nat == max_token_length(d),
{
    let mut best: usize = 0;
    let mut j: usize = 0;
    while j < dict.len()
        invariant
            0 <= j <= dict@.len(),
            d.len() == dict@.len(),
            forall|k: int| 0 <= k < d.len() ==> #[trigger] dict@[k]@ == d[k],
            best as nat == max_token_length(d.take(j as int)),
        decreases dict@.len() - j,
    {
        let ghost pre = d.take(j + 1);
        assert(pre.drop_last() =~= d.take(j as int));
        assert(pre.last() == d[j as int]);
        assert(dict@[j as int]@ == d[j as int]);
        if dict[j].len() > best {
            best = dict[j].len();
        }
        j = j + 1;
    }
    assert(d.take(dict@.len() as int) =~= d);
    best
}

/// Scores a log line against the dictionary: the request method is stripped, the
/// rest split on the delimiters, and each non-empty token matched against every
/// dictionary entry (smallest edit distance, largest bigram overlap). The exact
/// averages over the tokens, with the longest entry's length, give the label.
pub fn analyze_log_and_determine_criticality(
    log_entry: &str,
    delimiters: &[String],
    dictionary: &[String],
) -> (r: LineAnalysis)
    ensures
        ({
            let ts = log_tokens(log_entry@, str_views(delimiters@));
            let d = str_views(dictionary@);
            &&& r.tokens@.len() == ts.len()
            &&& forall|k: int|
                0 <= k < ts.len() ==> {
                    &&& (#[trigger] r.tokens@[k]).token@ == ts[k]
                    &&& r.tokens@[k].min_distance as nat == min_distance(ts[k], d)
                    &&& r.tokens@[k].max_overlap.num == best_overlap(ts[k], d).0
                    &&& r.tokens@[k].max_overlap.den == best_overlap(ts[k], d).1
                }
            &&& r.total_distance as nat == total_distance(ts, d)
            &&& r.average_distance as int == average_distance(ts, d)
            &&& r.max_token_length as nat == max_token_length(d)
            &&& r.criticality == line_criticality(log_entry@, str_views(delimiters@), d)
        }),
{
    let ghost ds = str_views(delimiters@);
    let ghost d = str_views(dictionary@);
    let tokens = log_line_tokens(log_entry, delimiters);
    let ghost ts = str_views(tokens@);
    let dict = chars_of_all(dictionary);
    let longest = longest_entry(&dict, Ghost(d));
    let mut scores: Vec<TokenScore> = Vec::new();
    let mut sum_distance: u128 = 0;
    let mut sum_num: Vec<u64> = big_from(0);
    let mut sum_den: Vec<u64> = big_from(1);
    let mut i: usize = 0;
    while i < tokens.len()
        invariant
            0 <= i <= tokens@.len(),
            ts == str_views(tokens@),
            d == str_views(dictionary@),
            d.len() == dict@.len(),
            forall|k: int| 0 <= k < d.len() ==> #[trigger] dict@[k]@ == d[k],
            scores@.len() == i,
            forall|k: int|
                0 <= k < i ==> {
                    &&& (#[trigger] scores@[k]).token@ == ts[k]
                    &&& scores@[k].min_distance as nat == min_distance(ts[k], d)
                    &&& scores@[k].max_overlap.num == best_overlap(ts[k], d).0
                    &&& scores@[k].max_overlap.den == best_overlap(ts[k], d).1
                },
            sum_distance as nat == total_distance(ts.take(i as int), d),
            value(sum_num@) == overlap_sum(ts.take(i as int), d).0,
            value(sum_den@) == overlap_sum(ts.take(i as int), d).1,
            sum_distance <= i * (usize::MAX as int),
        decreases tokens@.len() - i,
    {
        let cs = chars_of(tokens[i].as_str());
        let (dist, ov) = score_token(&cs, &dict, Ghost(d));
        let ghost pre = ts.take(i + 1);
        assert(pre.drop_last() =~= ts.take(i as int));
        assert(pre.last() == ts[i as int]);
        proof {
            lemma_best_overlap_bounds(ts[i as int], d);
        }
        assert(sum_distance + dist <= (i + 1) * (usize::MAX as int)) by (nonlinear_arith)
            requires
                sum_distance <= i * (usize::MAX as int),
                dist <= (usize::MAX as int),
        ;
        assert((i + 1) * (usize::MAX as int) < 0x1_0000_0000_0000_0000 * 0x1_0000_0000_0000_0000) by (nonlinear_arith)
            requires
                i < (usize::MAX as int),
                0 < (usize::MAX as int) < 0x1_0000_0000_0000_0000,
        ;
        sum_distance = sum_distance + dist as u128;
        let ghost a = value(sum_num@) as int;
        let ghost b = value(sum_den@) as int;
        let next_num = big_add(&big_mul(&sum_num, ov.den as u128), &big_mul(&sum_den, ov.num as u128));
        let next_den = big_mul(&sum_den, ov.den as u128);
        assert(b * ov.num == ov.num * b) by (nonlinear_arith);
        sum_num = next_num;
        sum_den = next_den;
        scores.push(TokenScore { token: tokens[i].clone(), min_distance: dist, max_overlap: ov });
        i = i + 1;
    }
    assert(ts.take(tokens@.len() as int) =~= ts);
    let n = tokens.len();
    let avg_distance = if n == 0 {
        0usize
    } else {
        assert(sum_distance / (n as u128) <= (usize::MAX as int)) by (nonlinear_arith)
            requires
                sum_distance <= n * (usize::MAX as int),
                n > 0,
        ;
        let ad = sum_distance / (n as u128);
        assert(ad as int == total_distance(ts, d) as int / ts.len() as int);
        ad as usize
    };
    let criticality = line_level(sum_distance, &sum_num, &sum_den, n, longest);
    LineAnalysis {
        criticality,
        tokens: scores,
        total_distance: sum_distance,
        average_distance: avg_distance,
        max_token_length: longest,
    }
}

/// Whether a log line scores High against the dictionary.
pub fn is_malicious(log_entry: &str, delimiters: &[String], dictionary: &[String]) -> (r: bool)
    ensures
        r == (line_criticality(log_entry@, str_views(delimiters@), str_views(dictionary@))
            == Criticality::High),
{
    let analysis = analyze_log_and_determine_criticality(log_entry, delimiters, dictionary);
    analysis.criticality == Criticality::High
}

} // verus!
