//! Edit distance and bigram overlap between strings.
use vstd::prelude::*;

use crate::chars::chars_of;

verus! {

/// The smaller of two numbers.
pub open spec fn min2(x: nat, y: nat) -> nat {
    if x <= y {
        x
    } else {
        y
    }
}

/// The larger of two numbers.
pub open spec fn max2(x: nat, y: nat) -> nat {
    if x >= y {
        x
    } else {
        y
    }
}

/// Single-character insert/delete/substitute distance between two character sequences.
pub open spec fn edit_distance(a: Seq<char>, b: Seq<char>) -> nat
    decreases a.len() + b.len(),
{
    if a.len() == 0 {
        b.len()
    } else if b.len() == 0 {
        a.len()
    } else {
        let cost: nat = if a.last() == b.last() {
            0
        } else {
            1
        };
        min2(
            min2(edit_distance(a.drop_last(), b) + 1, edit_distance(a, b.drop_last()) + 1),
            edit_distance(a.drop_last(), b.drop_last()) + cost,
        )
    }
}

/// The distance never exceeds the longer of the two lengths.
pub proof fn lemma_edit_distance_upper(a: Seq<char>, b: Seq<char>)
    ensures
        edit_distance(a, b) <= max2(a.len(), b.len()),
    decreases a.len() + b.len(),
{
    if a.len() > 0 && b.len() > 0 {
        lemma_edit_distance_upper(a.drop_last(), b.drop_last());
    }
}

/// A string is at distance zero from itself, and the empty string is at distance
/// `len(s)` from `s`.
pub proof fn lemma_edit_distance_identity(s: Seq<char>)
    ensures
        edit_distance(s, s) == 0,
        edit_distance(Seq::<char>::empty(), s) == s.len(),
    decreases s.len(),
{
    if s.len() > 0 {
        lemma_edit_distance_identity(s.drop_last());
    }
}

/// Edit distance is symmetric.
pub proof fn lemma_edit_distance_symmetric(a: Seq<char>, b: Seq<char>)
    ensures
        edit_distance(a, b) == edit_distance(b, a),
    decreases a.len() + b.len(),
{
    if a.len() > 0 && b.len() > 0 {
        lemma_edit_distance_symmetric(a.drop_last(), b);
        lemma_edit_distance_symmetric(a, b.drop_last());
        lemma_edit_distance_symmetric(a.drop_last(), b.drop_last());
    }
}

/// The distance is at least the difference of the two lengths.
pub proof fn lemma_edit_distance_lower(a: Seq<char>, b: Seq<char>)
    ensures
        edit_distance(a, b) + b.len() >= a.len(),
        edit_distance(a, b) + a.len() >= b.len(),
    decreases a.len() + b.len(),
{
    if a.len() > 0 && b.len() > 0 {
        lemma_edit_distance_lower(a.drop_last(), b);
        lemma_edit_distance_lower(a, b.drop_last());
        lemma_edit_distance_lower(a.drop_last(), b.drop_last());
    }
}

/// Edit distance satisfies the triangle inequality.
pub proof fn lemma_edit_distance_triangle(a: Seq<char>, b: Seq<char>, c: Seq<char>)
    ensures
        edit_distance(a, c) <= edit_distance(a, b) + edit_distance(b, c),
    decreases a.len() + b.len() + c.len(),
{
    lemma_edit_distance_upper(a, c);
    lemma_edit_distance_lower(a, b);
    lemma_edit_distance_lower(b, c);
    if a.len() > 0 && b.len() > 0 && c.len() > 0 {
        let a1 = a.drop_last();
        let b1 = b.drop_last();
        let c1 = c.drop_last();
        lemma_edit_distance_triangle(a1, b, c);
        lemma_edit_distance_triangle(a, b, c1);
        lemma_edit_distance_triangle(a, b1, c);
        lemma_edit_distance_triangle(a, b1, c1);
        lemma_edit_distance_triangle(a1, b1, c);
        lemma_edit_distance_triangle(a1, b1, c1);
    }
}

/// Cost of matching `x` against `y` in the table: nothing when they agree.
fn step_cost(x: char, y: char) -> (r: usize)
    ensures
        r == (if x == y {
            0nat
        } else {
            1nat
        }),
{
    if x == y {
        0
    } else {
        1
    }
}

fn plus_one(x: usize) -> (r: usize)
    ensures
        r == (if x < usize::MAX {
            x + 1
        } else {
            x as int
        }),
{
    if x < usize::MAX {
        x + 1
    } else {
        x
    }
}

fn smallest3(x: usize, y: usize, z: usize) -> (r: usize)
    ensures
        r as nat == min2(min2(x as nat, y as nat), z as nat),
{
    let mut r = x;
    if y < r {
        r = y;
    }
    if z < r {
        r = z;
    }
    r
}

/// Edit distance over characters (code points) with a two-row table.
pub(crate) fn edit_distance_chars(s1: &Vec<char>, s2: &Vec<char>) -> (r: usize)
    ensures
        r as nat == edit_distance(s1@, s2@),
{
    let n = s1.len();
    let ghost a = s1@;
    let ghost b = s2@;
    let mut prev: Vec<usize> = Vec::new();
    assert(edit_distance(a.take(0), b.take(0)) == 0);
    prev.push(0);
    let mut j: usize = 0;
    while j < n
        invariant
            0 <= j <= n,
            n == a.len(),
            prev@.len() == j + 1,
            forall|k: int| 0 <= k <= j ==> #[trigger] prev@[k] as nat == edit_distance(a.take(k), b.take(0)),
        decreases n - j,
    {
        assert(edit_distance(a.take(j + 1), b.take(0)) == j + 1) by {
            assert(b.take(0).len() == 0);
        }
        prev.push(j + 1);
        j = j + 1;
    }
    assert(prev@.len() == n + 1);
    let m = s2.len();
    let mut i: usize = 0;
    while i < m
        invariant
            0 <= i <= m,
            n == a.len(),
            m == b.len(),
            a == s1@,
            b == s2@,
            prev@.len() == n + 1,
            forall|k: int| 0 <= k <= n ==> #[trigger] prev@[k] as nat == edit_distance(a.take(k), b.take(i as int)),
        decreases m - i,
    {
        let y = s2[i];
        let mut curr: Vec<usize> = Vec::new();
        assert(edit_distance(a.take(0), b.take(i + 1)) == i + 1) by {
            assert(a.take(0).len() == 0);
        }
        curr.push(i + 1);
        let mut j: usize = 0;
        while j < n
            invariant
                0 <= j <= n,
                i < m,
                n == a.len(),
                m == b.len(),
                a == s1@,
                b == s2@,
                y == b[i as int],
                prev@.len() == n + 1,
                curr@.len() == j + 1,
                forall|k: int| 0 <= k <= n ==> #[trigger] prev@[k] as nat == edit_distance(a.take(k), b.take(i as int)),
                forall|k: int| 0 <= k <= j ==> #[trigger] curr@[k] as nat == edit_distance(a.take(k), b.take(i + 1)),
            decreases n - j,
        {
            let x = s1[j];
            let cost = step_cost(x, y);
            let ghost aj = a.take(j + 1);
            let ghost bi = b.take(i + 1);
            assert(aj.drop_last() =~= a.take(j as int));
            assert(bi.drop_last() =~= b.take(i as int));
            assert(aj.last() == x);
            assert(bi.last() == y);
            proof {
                lemma_edit_distance_upper(aj, bi);
            }
            let diag = if cost == 0 {
                prev[j]
            } else {
                plus_one(prev[j])
            };
            let d = smallest3(plus_one(curr[j]), plus_one(prev[j + 1]), diag);
            curr.push(d);
            j = j + 1;
        }
        prev = curr;
        i = i + 1;
    }
    assert(a.take(n as int) =~= a);
    assert(b.take(m as int) =~= b);
    prev[n]
}

/// Edit (Levenshtein) distance between two strings, counted in characters.
pub fn levenshtein(s1: &str, s2: &str) -> (r: usize)
    ensures
        r as nat == edit_distance(s1@, s2@),
{
    let a = chars_of(s1);
    let b = chars_of(s2);
    edit_distance_chars(&a, &b)
}

/// An exact fraction `num / den`; the functions that return one give it a positive
/// denominator.
#[derive(Clone, Copy, Debug, PartialEq, Eq, Structural)]
pub struct Fraction {
    pub num: i128,
    pub den: i128,
}

/// The 2-character sliding windows of `s`, in order.
pub open spec fn bigrams(s: Seq<char>) -> Seq<(char, char)> {
    Seq::new(
        if s.len() >= 2 {
            (s.len() - 1) as nat
        } else {
            0
        },
        |i: int| (s[i], s[i + 1]),
    )
}

/// How many windows of `x` (with their multiplicity in `x`) occur anywhere in `y`.
pub open spec fn shared_count(x: Seq<(char, char)>, y: Seq<(char, char)>) -> nat
    decreases x.len(),
{
    if x.len() == 0 {
        0
    } else {
        shared_count(x.drop_last(), y) + if y.contains(x.last()) {
            1nat
        } else {
            0nat
        }
    }
}

pub proof fn lemma_shared_count_bound(x: Seq<(char, char)>, y: Seq<(char, char)>)
    ensures
        shared_count(x, y) <= x.len(),
    decreases x.len(),
{
    if x.len() > 0 {
        lemma_shared_count_bound(x.drop_last(), y);
    }
}

/// Numerator of the bigram overlap of `a` against `b`.
pub open spec fn overlap_num(a: Seq<char>, b: Seq<char>) -> int {
    if a.len() == 0 || b.len() == 0 {
        0
    } else if a == b {
        1
    } else {
        2 * shared_count(bigrams(a), bigrams(b)) as int
    }
}

/// Denominator of the bigram overlap of `a` against `b`; always positive.
pub open spec fn overlap_den(a: Seq<char>, b: Seq<char>) -> int {
    if a.len() == 0 || b.len() == 0 || a == b {
        1
    } else if bigrams(a).len() + bigrams(b).len() == 0 {
        1
    } else {
        (bigrams(a).len() + bigrams(b).len()) as int
    }
}

fn same_chars(a: &Vec<char>, b: &Vec<char>) -> (r: bool)
    ensures
        r == (a@ == b@),
{
    if a.len() != b.len() {
        return false;
    }
    let mut i: usize = 0;
    while i < a.len()
        invariant
            0 <= i <= a.len(),
            a.len() == b.len(),
            forall|k: int| 0 <= k < i ==> a@[k] == b@[k],
        decreases a.len() - i,
    {
        if a[i] != b[i] {
            return false;
        }
        i = i + 1;
    }
    assert(a@ =~= b@);
    true
}

fn has_bigram(s: &Vec<char>, x: char, y: char) -> (r: bool)
    ensures
        r == bigrams(s@).contains((x, y)),
{
    let ghost bs = bigrams(s@);
    if s.len() < 2 {
        assert(bs.len() == 0);
        return false;
    }
    let mut j: usize = 0;
    while j + 1 < s.len()
        invariant
            s.len() >= 2,
            0 <= j <= s.len() - 1,
            bs == bigrams(s@),
            forall|k: int| 0 <= k < j ==> bs[k] != (x, y),
        decreases s.len() - j,
    {
        if s[j] == x && s[j + 1] == y {
            assert(bs[j as int] == (x, y));
            return true;
        }
        j = j + 1;
    }
    assert forall|k: int| 0 <= k < bs.len() implies bs[k] != (x, y) by {}
    false
}

/// Bigram overlap of the characters `a` against `b`.
pub(crate) fn overlap_chars(a: &Vec<char>, b: &Vec<char>) -> (r: Fraction)
    ensures
        r.num == overlap_num(a@, b@),
        r.den == overlap_den(a@, b@),
        r.den <= 2 * (usize::MAX as int),
{
    if a.len() == 0 || b.len() == 0 {
        return Fraction { num: 0, den: 1 };
    }
    if same_chars(a, b) {
        return Fraction { num: 1, den: 1 };
    }
    let ghost ba = bigrams(a@);
    let ghost bb = bigrams(b@);
    let na: usize = a.len() - 1;
    let nb: usize = b.len() - 1;
    let mut count: usize = 0;
    let mut i: usize = 0;
    while i < na
        invariant
            0 <= i <= na,
            na == ba.len(),
            a.len() == na + 1,
            ba == bigrams(a@),
            bb == bigrams(b@),
            count == shared_count(ba.take(i as int), bb),
            count <= i,
        decreases na - i,
    {
        let ghost pre = ba.take(i + 1);
        assert(pre.drop_last() =~= ba.take(i as int));
        assert(pre.last() == (a@[i as int], a@[i + 1]));
        if has_bigram(b, a[i], a[i + 1]) {
            count = count + 1;
        }
        i = i + 1;
    }
    assert(ba.take(na as int) =~= ba);
    assert(nb == bb.len());
    let total: i128 = na as i128 + nb as i128;
    if total == 0 {
        Fraction { num: 0, den: 1 }
    } else {
        Fraction { num: 2 * (count as i128), den: total }
    }
}

/// Dice coefficient over character bigrams: twice the number of windows of `s1`
/// found in `s2`, over the number of windows of both. It is exactly 1 for two
/// equal non-empty strings and 0 when either string is empty.
pub fn dice_coefficient(s1: &str, s2: &str) -> (r: Fraction)
    ensures
        r.num == overlap_num(s1@, s2@),
        r.den == overlap_den(s1@, s2@),
        r.den <= 2 * (usize::MAX as int),
{
    let a = chars_of(s1);
    let b = chars_of(s2);
    overlap_chars(&a, &b)
}

/// The overlap is a fraction with a positive denominator, between 0 and 2.
pub proof fn lemma_overlap_bounds(a: Seq<char>, b: Seq<char>)
    ensures
        overlap_den(a, b) > 0,
        0 <= overlap_num(a, b) <= 2 * overlap_den(a, b),
{
    lemma_shared_count_bound(bigrams(a), bigrams(b));
}

/// A non-empty string overlaps itself exactly, and the empty string overlaps
/// nothing.
pub proof fn lemma_overlap_identity(s: Seq<char>, t: Seq<char>)
    ensures
        s.len() > 0 ==> overlap_num(s, s) == overlap_den(s, s),
        overlap_num(Seq::<char>::empty(), t) == 0,
        overlap_num(t, Seq::<char>::empty()) == 0,
{
}

} // verus!
