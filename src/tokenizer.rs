//! Cutting a log line into tokens: the request method is dropped and the rest is
//! split on an ordered list of delimiters.
use vstd::prelude::*;

use crate::chars::{chars_of, chars_of_all, owned_slice, str_views};

verus! {

/// The line without its first space-separated field (the request method): all that
/// follows the first space, or nothing when the line has no space.
pub open spec fn strip_leading_field(s: Seq<char>) -> Seq<char>
    decreases s.len(),
{
    if s.len() == 0 {
        s
    } else if s[0] == ' ' {
        s.skip(1)
    } else {
        strip_leading_field(s.skip(1))
    }
}

/// Removes the request method (the first space-separated field) from a log line.
pub fn remove_request_type_from_log(log_entry: &str) -> (r: String)
    ensures
        r@ == strip_leading_field(log_entry@),
{
    let cs = chars_of(log_entry);
    let n = cs.len();
    let mut k: usize = 0;
    assert(cs@.skip(0) =~= cs@);
    while k < n
        invariant
            0 <= k <= n,
            n == cs@.len(),
            cs@ == log_entry@,
            strip_leading_field(cs@) == strip_leading_field(cs@.skip(k as int)),
        decreases n - k,
    {
        assert(cs@.skip(k as int).skip(1) =~= cs@.skip(k + 1));
        if cs[k] == ' ' {
            assert(cs@.skip(k + 1) =~= cs@.subrange(k + 1, n as int));
            return owned_slice(log_entry, k + 1, n);
        }
        k = k + 1;
    }
    assert(cs@.skip(n as int).len() == 0);
    String::new()
}

/// Delimiter `d` occurs in `s` at position `i`. An empty delimiter never matches.
pub open spec fn matches_at(s: Seq<char>, d: Seq<char>, i: int) -> bool {
    &&& d.len() > 0
    &&& 0 <= i
    &&& i + d.len() <= s.len()
    &&& s.subrange(i, i + d.len()) == d
}

/// Length of the first delimiter of `ds`, from index `k` on, that occurs at position
/// `i`; zero when none does.
pub open spec fn match_len(s: Seq<char>, ds: Seq<Seq<char>>, i: int, k: int) -> nat
    decreases ds.len() - k,
{
    if k < 0 || k >= ds.len() {
        0
    } else if matches_at(s, ds[k], i) {
        ds[k].len()
    } else {
        match_len(s, ds, i, k + 1)
    }
}

/// Tokens of `s` from position `i` on, the current token having begun at `start`.
/// Each delimiter match closes the current token, empty or not; the last token is
/// kept only when it is not empty.
pub open spec fn split_from(s: Seq<char>, ds: Seq<Seq<char>>, i: int, start: int) -> Seq<Seq<char>>
    decreases s.len() - i,
{
    if i < 0 || i >= s.len() {
        if start < s.len() {
            seq![s.subrange(start, s.len() as int)]
        } else {
            seq![]
        }
    } else {
        let l = match_len(s, ds, i, 0);
        if l > 0 && i + l <= s.len() {
            seq![s.subrange(start, i)] + split_from(s, ds, i + l, i + l)
        } else {
            split_from(s, ds, i + 1, start)
        }
    }
}

/// The tokens of a line split on an ordered list of delimiters, first match winning.
pub open spec fn split_tokens(s: Seq<char>, ds: Seq<Seq<char>>) -> Seq<Seq<char>> {
    split_from(s, ds, 0, 0)
}

pub proof fn lemma_match_len(s: Seq<char>, ds: Seq<Seq<char>>, i: int, k: int)
    requires
        0 <= k,
    ensures
        match_len(s, ds, i, k) > 0 ==> i + match_len(s, ds, i, k) <= s.len(),
    decreases ds.len() - k,
{
    if k < ds.len() && !matches_at(s, ds[k], i) {
        lemma_match_len(s, ds, i, k + 1);
    }
}

fn matches_at_exec(s: &Vec<char>, d: &Vec<char>, i: usize) -> (r: bool)
    ensures
        r == matches_at(s@, d@, i as int),
{
    if d.len() == 0 || i > s.len() || d.len() > s.len() - i {
        return false;
    }
    let mut m: usize = 0;
    while m < d.len()
        invariant
            0 <= m <= d.len(),
            i + d.len() <= s.len(),
            forall|q: int| 0 <= q < m ==> s@[i + q] == d@[q],
        decreases d.len() - m,
    {
        if s[i + m] != d[m] {
            assert(s@.subrange(i as int, i + d.len())[m as int] != d@[m as int]);
            return false;
        }
        m = m + 1;
    }
    assert(s@.subrange(i as int, i + d.len()) =~= d@);
    true
}

fn first_match_len(s: &Vec<char>, ds: &Vec<Vec<char>>, Ghost(dv): Ghost<Seq<Seq<char>>>, i: usize) -> (r: usize)
    requires
        dv.len() == ds@.len(),
        forall|k: int| 0 <= k < ds@.len() ==> #[trigger] ds@[k]@ == dv[k],
    ensures
        r as nat == match_len(s@, dv, i as int, 0),
{
    let mut k: usize = 0;
    while k < ds.len()
        invariant
            0 <= k <= ds@.len(),
            dv.len() == ds@.len(),
            forall|q: int| 0 <= q < ds@.len() ==> #[trigger] ds@[q]@ == dv[q],
            match_len(s@, dv, i as int, 0) == match_len(s@, dv, i as int, k as int),
        decreases ds@.len() - k,
    {
        assert(ds@[k as int]@ == dv[k as int]);
        if matches_at_exec(s, &ds[k], i) {
            return ds[k].len();
        }
        k = k + 1;
    }
    0
}

/// Splits `source` on `delimiters`: scanning left to right, the first delimiter (in
/// list order) found at the current position closes the current token, even when it
/// is empty, and is skipped; otherwise the character joins the current token. The
/// final token is emitted only when it is not empty.
pub fn split_by_multiple_delimiters(source: &str, delimiters: &[String]) -> (r: Vec<String>)
    ensures
        str_views(r@) == split_tokens(source@, str_views(delimiters@)),
{
    let s = chars_of(source);
    let ds = chars_of_all(delimiters);
    let ghost dv = str_views(delimiters@);
    let n = s.len();
    let mut tokens: Vec<String> = Vec::new();
    let mut start: usize = 0;
    let mut i: usize = 0;
    while i < n
        invariant
            0 <= start <= i <= n,
            n == s@.len(),
            s@ == source@,
            dv == str_views(delimiters@),
            dv.len() == ds@.len(),
            forall|k: int| 0 <= k < ds@.len() ==> #[trigger] ds@[k]@ == dv[k],
            split_tokens(s@, dv) == str_views(tokens@) + split_from(s@, dv, i as int, start as int),
        decreases n - i,
    {
        let l = first_match_len(&s, &ds, Ghost(dv), i);
        proof {
            lemma_match_len(s@, dv, i as int, 0);
        }
        if l > 0 {
            let t = owned_slice(source, start, i);
            let ghost before = tokens@;
            tokens.push(t);
            assert(str_views(tokens@) =~= str_views(before).push(t@));
            assert(str_views(tokens@) + split_from(s@, dv, (i + l) as int, (i + l) as int)
                =~= str_views(before) + split_from(s@, dv, i as int, start as int));
            i = i + l;
            start = i;
        } else {
            i = i + 1;
        }
    }
    if start < n {
        let t = owned_slice(source, start, n);
        let ghost before = tokens@;
        tokens.push(t);
        assert(str_views(tokens@) =~= str_views(before).push(t@));
    } else {
        assert(split_from(s@, dv, i as int, start as int) =~= Seq::<Seq<char>>::empty());
    }
    assert(str_views(tokens@) =~= split_tokens(s@, dv));
    tokens
}

/// The non-empty tokens among `ts`, in order.
pub open spec fn nonempty_tokens(ts: Seq<Seq<char>>) -> Seq<Seq<char>>
    decreases ts.len(),
{
    if ts.len() == 0 {
        seq![]
    } else if ts.last().len() > 0 {
        nonempty_tokens(ts.drop_last()).push(ts.last())
    } else {
        nonempty_tokens(ts.drop_last())
    }
}

/// The tokens of a log line that are compared against a dictionary: the line
/// without its request method, split on the delimiters, empty tokens dropped.
pub open spec fn log_tokens(line: Seq<char>, ds: Seq<Seq<char>>) -> Seq<Seq<char>> {
    nonempty_tokens(split_tokens(strip_leading_field(line), ds))
}

pub proof fn lemma_nonempty_tokens(ts: Seq<Seq<char>>)
    ensures
        forall|k: int| 0 <= k < nonempty_tokens(ts).len() ==> #[trigger] nonempty_tokens(ts)[k].len() > 0,
        forall|t: Seq<char>| nonempty_tokens(ts).contains(t) <==> (t.len() > 0 && ts.contains(t)),
    decreases ts.len(),
{
    if ts.len() > 0 {
        let init = ts.drop_last();
        lemma_nonempty_tokens(init);
        assert forall|t: Seq<char>| ts.contains(t) <==> (init.contains(t) || t == ts.last()) by {
            if ts.contains(t) {
                let k = choose|k: int| 0 <= k < ts.len() && ts[k] == t;
                if k < ts.len() - 1 {
                    assert(init[k] == t);
                }
            }
            if init.contains(t) {
                let k = choose|k: int| 0 <= k < init.len() && init[k] == t;
                assert(ts[k] == t);
            }
            if t == ts.last() {
                assert(ts[ts.len() - 1] == t);
            }
        }
        let ne = nonempty_tokens(init);
        if ts.last().len() > 0 {
            assert forall|t: Seq<char>| ne.push(ts.last()).contains(t) <==> (ne.contains(t) || t == ts.last()) by {
                if ne.push(ts.last()).contains(t) {
                    let k = choose|k: int| 0 <= k < ne.len() + 1 && ne.push(ts.last())[k] == t;
                    if k < ne.len() {
                        assert(ne[k] == t);
                    }
                }
                if ne.contains(t) {
                    let k = choose|k: int| 0 <= k < ne.len() && ne[k] == t;
                    assert(ne.push(ts.last())[k] == t);
                }
                if t == ts.last() {
                    assert(ne.push(ts.last())[ne.len() as int] == t);
                }
            }
        }
    }
}

/// The tokens of a log line that are compared against a dictionary.
pub fn log_line_tokens(line: &str, delimiters: &[String]) -> (r: Vec<String>)
    ensures
        str_views(r@) == log_tokens(line@, str_views(delimiters@)),
{
    let stripped = remove_request_type_from_log(line);
    let parts = split_by_multiple_delimiters(stripped.as_str(), delimiters);
    let ghost pv = str_views(parts@);
    let mut out: Vec<String> = Vec::new();
    let mut k: usize = 0;
    while k < parts.len()
        invariant
            0 <= k <= parts@.len(),
            pv == str_views(parts@),
            pv == split_tokens(strip_leading_field(line@), str_views(delimiters@)),
            str_views(out@) == nonempty_tokens(pv.take(k as int)),
        decreases parts@.len() - k,
    {
        let ghost before = out@;
        assert(pv.take(k + 1).drop_last() =~= pv.take(k as int));
        assert(pv.take(k + 1).last() == parts@[k as int]@);
        if !parts[k].as_str().is_empty() {
            out.push(parts[k].clone());
            assert(str_views(out@) =~= str_views(before).push(parts@[k as int]@));
        }
        k = k + 1;
    }
    assert(pv.take(parts@.len() as int) =~= pv);
    out
}

} // verus!
