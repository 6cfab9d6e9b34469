//! Searching, slicing, splitting, replacing and unescaping strings by characters.
use vstd::prelude::*;

use crate::chars::{chars_of, owned_slice, str_views, string_from_chars};
use crate::tokenizer::matches_at;

verus! {

/// `x` clipped to at most `n`.
pub open spec fn clip(x: int, n: int) -> int {
    if x <= n {
        x
    } else {
        n
    }
}

/// `p` occurs in `s` at position `i` (the empty pattern occurs at every position).
pub open spec fn occurs_at(s: Seq<char>, p: Seq<char>, i: int) -> bool {
    &&& 0 <= i
    &&& i + p.len() <= s.len()
    &&& s.subrange(i, i + p.len()) == p
}

/// `p` occurs somewhere in `s`.
pub open spec fn occurs_in(s: Seq<char>, p: Seq<char>) -> bool {
    exists|i: int| occurs_at(s, p, i)
}

/// The windows of `n` consecutive characters of `s`, left to right.
pub open spec fn ngrams(s: Seq<char>, n: nat) -> Seq<Seq<char>> {
    if n > s.len() {
        seq![]
    } else {
        Seq::new((s.len() - n + 1) as nat, |i: int| s.subrange(i, i + n))
    }
}

/// The character at `index` of a string.
pub fn get_char_at(string: &str, index: usize) -> (r: char)
    requires
        index < string@.len(),
    ensures
        r == string@[index as int],
{
    string.get_char(index)
}

/// At most `length` characters of `string`, from character `start` on.
pub fn substring(string: &str, start: usize, length: usize) -> (r: String)
    ensures
        r@ == string@.subrange(
            clip(start as int, string@.len() as int),
            clip(start + length, string@.len() as int),
        ),
{
    let n = string.unicode_len();
    let from = if start < n {
        start
    } else {
        n
    };
    let to = if length <= n - from {
        from + length
    } else {
        n
    };
    owned_slice(string, from, to)
}

fn occurs_at_exec(s: &Vec<char>, p: &Vec<char>, i: usize) -> (r: bool)
    ensures
        r == occurs_at(s@, p@, i as int),
{
    if i > s.len() || p.len() > s.len() - i {
        return false;
    }
    let mut m: usize = 0;
    while m < p.len()
        invariant
            0 <= m <= p.len(),
            i + p.len() <= s.len(),
            forall|q: int| 0 <= q < m ==> s@[i + q] == p@[q],
        decreases p.len() - m,
    {
        if s[i + m] != p[m] {
            assert(s@.subrange(i as int, i + p.len())[m as int] != p@[m as int]);
            return false;
        }
        m = m + 1;
    }
    assert(s@.subrange(i as int, i + p.len()) =~= p@);
    true
}

fn occurs_in_chars(s: &Vec<char>, p: &Vec<char>) -> (r: bool)
    ensures
        r == occurs_in(s@, p@),
{
    if p.len() > s.len() {
        return false;
    }
    let last = s.len() - p.len();
    let mut i: usize = 0;
    let mut found = false;
    while i <= last
        invariant_except_break
            0 <= i <= last,
            last == s.len() - p.len(),
            !found,
            forall|k: int| 0 <= k < i ==> !#[trigger] occurs_at(s@, p@, k),
        ensures
            found ==> occurs_in(s@, p@),
            !found ==> forall|k: int| 0 <= k <= last ==> !#[trigger] occurs_at(s@, p@, k),
        decreases last + 1 - i,
    {
        if occurs_at_exec(s, p, i) {
            found = true;
            break;
        }
        if i == last {
            break;
        }
        i = i + 1;
    }
    if !found {
        assert forall|k: int| !#[trigger] occurs_at(s@, p@, k) by {
            if 0 <= k <= last {
            }
        }
    }
    found
}

/// Whether `substring` occurs in `string`.
pub fn contains_substring(string: &str, substring: &str) -> (r: bool)
    ensures
        r == occurs_in(string@, substring@),
{
    let s = chars_of(string);
    let p = chars_of(substring);
    occurs_in_chars(&s, &p)
}

/// All windows of `ngram_size` consecutive characters of `string`, left to right;
/// none when the string is shorter than that.
pub fn tokenize_by_ngram(string: &str, ngram_size: usize) -> (r: Vec<String>)
    ensures
        str_views(r@) == ngrams(string@, ngram_size as nat),
{
    let mut tokens: Vec<String> = Vec::new();
    let length = string.unicode_len();
    if ngram_size > length {
        assert(str_views(tokens@) =~= ngrams(string@, ngram_size as nat));
        return tokens;
    }
    let last = length - ngram_size;
    let mut i: usize = 0;
    while i <= last
        invariant_except_break
            0 <= i <= last,
            tokens@.len() == i,
        invariant
            length == string@.len(),
            last == length - ngram_size,
            forall|k: int| 0 <= k < tokens@.len() ==> #[trigger] tokens@[k]@ == string@.subrange(k, k + ngram_size),
        ensures
            tokens@.len() == last + 1,
        decreases last + 1 - i,
    {
        tokens.push(owned_slice(string, i, i + ngram_size));
        if i == last {
            break;
        }
        i = i + 1;
    }
    assert(str_views(tokens@) =~= ngrams(string@, ngram_size as nat));
    tokens
}

/// The 3-character windows of `string`.
pub fn extract_trigrams(string: &str) -> (r: Vec<String>)
    ensures
        str_views(r@) == ngrams(string@, 3),
{
    tokenize_by_ngram(string, 3)
}

/// The 2-character windows of `string`.
pub fn extract_bigrams(string: &str) -> (r: Vec<String>)
    ensures
        str_views(r@) == ngrams(string@, 2),
{
    tokenize_by_ngram(string, 2)
}

/// The single characters of `string`, each as a string.
pub fn extract_unigrams(string: &str) -> (r: Vec<String>)
    ensures
        str_views(r@) == ngrams(string@, 1),
{
    tokenize_by_ngram(string, 1)
}

/// `s` from position `i` on, with each non-overlapping occurrence of the non-empty
/// pattern `p` (found left to right) replaced by `w`.
pub open spec fn replace_from(s: Seq<char>, p: Seq<char>, w: Seq<char>, i: int) -> Seq<char>
    decreases s.len() - i,
{
    if i < 0 || i >= s.len() {
        seq![]
    } else if matches_at(s, p, i) {
        w + replace_from(s, p, w, i + p.len())
    } else {
        seq![s[i]] + replace_from(s, p, w, i + 1)
    }
}

/// Each character of `s` from position `i` on, followed by `w`.
pub open spec fn interleave_from(s: Seq<char>, w: Seq<char>, i: int) -> Seq<char>
    decreases s.len() - i,
{
    if i < 0 || i >= s.len() {
        seq![]
    } else {
        seq![s[i]] + w + interleave_from(s, w, i + 1)
    }
}

/// `s` with every occurrence of `p` replaced by `w`; an empty pattern matches
/// before each character and at the end.
pub open spec fn replaced(s: Seq<char>, p: Seq<char>, w: Seq<char>) -> Seq<char> {
    if p.len() == 0 {
        w + interleave_from(s, w, 0)
    } else {
        replace_from(s, p, w, 0)
    }
}

/// Replaces every occurrence of `search` in `source` by `replace`, left to right.
pub fn replace_substring(source: &str, search: &str, replace: &str) -> (r: String)
    ensures
        r@ == replaced(source@, search@, replace@),
{
    let s = chars_of(source);
    let p = chars_of(search);
    let n = s.len();
    let mut result = String::new();
    if p.len() == 0 {
        result.append(replace);
        let mut i: usize = 0;
        while i < n
            invariant
                0 <= i <= n,
                n == s@.len(),
                s@ == source@,
                p@.len() == 0,
                replaced(s@, p@, replace@) == result@ + interleave_from(s@, replace@, i as int),
            decreases n - i,
        {
            let ghost before = result@;
            result.append(source.substring_char(i, i + 1));
            result.append(replace);
            assert(source@.subrange(i as int, i + 1) =~= seq![s@[i as int]]);
            assert(before + interleave_from(s@, replace@, i as int) =~= result@ + interleave_from(
                s@,
                replace@,
                i + 1,
            ));
            i = i + 1;
        }
        assert(result@ + interleave_from(s@, replace@, n as int) =~= result@);
        return result;
    }
    let mut run: usize = 0;
    let mut i: usize = 0;
    while i < n
        invariant
            0 <= run <= i <= n,
            n == s@.len(),
            s@ == source@,
            p@ == search@,
            p@.len() > 0,
            replaced(s@, p@, replace@) == result@ + s@.subrange(run as int, i as int) + replace_from(
                s@,
                p@,
                replace@,
                i as int,
            ),
        decreases n - i,
    {
        if occurs_at_exec(&s, &p, i) {
            assert(matches_at(s@, p@, i as int));
            let ghost before = result@;
            result.append(source.substring_char(run, i));
            result.append(replace);
            assert(before + s@.subrange(run as int, i as int) + replace_from(s@, p@, replace@, i as int)
                =~= result@ + s@.subrange((i + p.len()) as int, (i + p.len()) as int) + replace_from(
                s@,
                p@,
                replace@,
                (i + p.len()) as int,
            ));
            i = i + p.len();
            run = i;
        } else {
            assert(!matches_at(s@, p@, i as int));
            assert(result@ + s@.subrange(run as int, i as int) + replace_from(s@, p@, replace@, i as int)
                =~= result@ + s@.subrange(run as int, i + 1) + replace_from(
                s@,
                p@,
                replace@,
                i + 1,
            ));
            i = i + 1;
        }
    }
    let ghost before = result@;
    result.append(source.substring_char(run, n));
    assert(before + s@.subrange(run as int, n as int) + replace_from(s@, p@, replace@, n as int)
        =~= result@);
    result
}

/// Pieces of `s` from position `i` on, the current piece having begun at `start`,
/// split at each non-overlapping occurrence of the non-empty delimiter `d`; the
/// last piece is always kept, even when empty.
pub open spec fn pieces_from(s: Seq<char>, d: Seq<char>, i: int, start: int) -> Seq<Seq<char>>
    decreases s.len() - i,
{
    if i < 0 || i >= s.len() {
        seq![s.subrange(start, s.len() as int)]
    } else if matches_at(s, d, i) {
        seq![s.subrange(start, i)] + pieces_from(s, d, i + d.len(), i + d.len())
    } else {
        pieces_from(s, d, i + 1, start)
    }
}

/// The pieces of `s` between occurrences of `d`. An empty delimiter separates every
/// character, with an empty piece at each end.
pub open spec fn pieces(s: Seq<char>, d: Seq<char>) -> Seq<Seq<char>> {
    if d.len() == 0 {
        seq![seq![]] + Seq::new(s.len(), |i: int| seq![s[i]]) + seq![seq![]]
    } else {
        pieces_from(s, d, 0, 0)
    }
}

/// Splits `source` at every occurrence of `delimiter`, keeping empty pieces.
pub fn tokenize_by_delimiter(source: &str, delimiter: &str) -> (r: Vec<String>)
    ensures
        str_views(r@) == pieces(source@, delimiter@),
{
    let s = chars_of(source);
    let d = chars_of(delimiter);
    let n = s.len();
    let mut out: Vec<String> = Vec::new();
    if d.len() == 0 {
        out.push(String::new());
        let mut i: usize = 0;
        while i < n
            invariant
                0 <= i <= n,
                n == s@.len(),
                s@ == source@,
                out@.len() == i + 1,
                out@[0]@ == Seq::<char>::empty(),
                forall|k: int| 1 <= k <= i ==> #[trigger] out@[k]@ == seq![s@[k - 1]],
            decreases n - i,
        {
            let t = owned_slice(source, i, i + 1);
            assert(t@ =~= seq![s@[i as int]]);
            out.push(t);
            i = i + 1;
        }
        out.push(String::new());
        assert(str_views(out@) =~= pieces(source@, delimiter@));
        return out;
    }
    let mut start: usize = 0;
    let mut i: usize = 0;
    while i < n
        invariant
            0 <= start <= i <= n,
            n == s@.len(),
            s@ == source@,
            d@ == delimiter@,
            d@.len() > 0,
            pieces(s@, d@) == str_views(out@) + pieces_from(s@, d@, i as int, start as int),
        decreases n - i,
    {
        if occurs_at_exec(&s, &d, i) {
            assert(matches_at(s@, d@, i as int));
            let t = owned_slice(source, start, i);
            let ghost before = out@;
            out.push(t);
            assert(str_views(out@) =~= str_views(before).push(t@));
            assert(str_views(out@) + pieces_from(s@, d@, (i + d.len()) as int, (i + d.len()) as int)
                =~= str_views(before) + pieces_from(s@, d@, i as int, start as int));
            i = i + d.len();
            start = i;
        } else {
            i = i + 1;
        }
    }
    let t = owned_slice(source, start, n);
    let ghost before = out@;
    out.push(t);
    assert(str_views(out@) =~= str_views(before).push(t@));
    assert(str_views(out@) =~= pieces(s@, d@));
    out
}

/// Index of the first string of `substrings` that occurs in `source`, or -1 when
/// none does.
pub fn contains_any_substring(source: &str, substrings: &[String]) -> (r: i32)
    requires
        substrings@.len() <= i32::MAX,
    ensures
        -1 <= r < substrings@.len(),
        r >= 0 ==> occurs_in(source@, substrings@[r as int]@),
        forall|k: int|
            0 <= k < substrings@.len() && (r < 0 || k < r) ==> !occurs_in(
                source@,
                #[trigger] substrings@[k]@,
            ),
{
    let s = chars_of(source);
    let mut k: usize = 0;
    while k < substrings.len()
        invariant
            0 <= k <= substrings@.len(),
            substrings@.len() <= i32::MAX,
            s@ == source@,
            forall|q: int| 0 <= q < k ==> !occurs_in(source@, #[trigger] substrings@[q]@),
        decreases substrings@.len() - k,
    {
        let p = chars_of(substrings[k].as_str());
        if occurs_in_chars(&s, &p) {
            return k as i32;
        }
        k = k + 1;
    }
    -1
}

/// Value of a hexadecimal digit, or -1 for any other character.
pub open spec fn hex_value(c: char) -> int {
    let v = c as u32;
    if 48 <= v <= 57 {
        v - 48
    } else if 97 <= v <= 102 {
        v - 87
    } else if 65 <= v <= 70 {
        v - 55
    } else {
        -1
    }
}

/// The two characters after a `%` spell a byte in base 16 (a leading `+` sign is
/// allowed before a single digit).
pub open spec fn escape_ok(c1: char, c2: char) -> bool {
    hex_value(c2) >= 0 && (c1 == '+' || hex_value(c1) >= 0)
}

/// The byte that the two characters after a `%` spell.
pub open spec fn escape_value(c1: char, c2: char) -> int {
    if c1 == '+' {
        hex_value(c2)
    } else {
        hex_value(c1) * 16 + hex_value(c2)
    }
}

/// Every `%` met when scanning `s` from position `i` (skipping each escape as a
/// whole) is followed by two characters that spell a byte.
pub open spec fn escapes_ok_from(s: Seq<char>, i: int) -> bool
    decreases s.len() - i,
{
    if i < 0 || i >= s.len() {
        true
    } else if s[i] == '%' {
        i + 2 < s.len() && escape_ok(s[i + 1], s[i + 2]) && escapes_ok_from(s, i + 3)
    } else {
        escapes_ok_from(s, i + 1)
    }
}

/// `s` from position `i` on, with each `%` and the two characters after it replaced
/// by the character of the byte they spell (`decode`), or dropped (otherwise).
pub open spec fn decoded_from(s: Seq<char>, decode: bool, i: int) -> Seq<char>
    decreases s.len() + 3 - i,
{
    if i < 0 || i >= s.len() {
        seq![]
    } else if s[i] == '%' {
        (if decode {
            seq![(escape_value(s[i + 1], s[i + 2]) as u8) as char]
        } else {
            seq![]
        }) + decoded_from(s, decode, i + 3)
    } else {
        seq![s[i]] + decoded_from(s, decode, i + 1)
    }
}

fn hex_value_exec(c: char) -> (r: i32)
    ensures
        r == hex_value(c),
{
    let v = c as u32;
    if 48 <= v && v <= 57 {
        (v - 48) as i32
    } else if 97 <= v && v <= 102 {
        (v - 87) as i32
    } else if 65 <= v && v <= 70 {
        (v - 55) as i32
    } else {
        -1
    }
}

/// Decodes (`operation == 0`) or removes (any other value) the `%XX` escapes of
/// `source`. Decoding needs every escape to be well formed.
pub fn process_decoded_string(source: &str, operation: i32) -> (r: String)
    requires
        operation == 0 ==> escapes_ok_from(source@, 0),
    ensures
        r@ == decoded_from(source@, operation == 0, 0),
{
    let s = chars_of(source);
    let n = s.len();
    let decode = operation == 0;
    let mut out: Vec<char> = Vec::new();
    let mut i: usize = 0;
    while i < n
        invariant
            n == s@.len(),
            s@ == source@,
            decode == (operation == 0),
            decode ==> escapes_ok_from(s@, i as int),
            decoded_from(s@, decode, 0) == out@ + decoded_from(s@, decode, i as int),
        decreases n - i,
    {
        let ghost before = out@;
        if s[i] == '%' {
            if decode {
                let c1 = s[i + 1];
                let c2 = s[i + 2];
                let low = hex_value_exec(c2);
                let v: i32 = if c1 == '+' {
                    low
                } else {
                    hex_value_exec(c1) * 16 + low
                };
                out.push((v as u8) as char);
            }
            assert(before + decoded_from(s@, decode, i as int) =~= out@ + decoded_from(
                s@,
                decode,
                i + 3,
            ));
            if n - i <= 3 {
                assert(decoded_from(s@, decode, i + 3) =~= Seq::<char>::empty());
                i = n;
            } else {
                i = i + 3;
            }
        } else {
            out.push(s[i]);
            assert(before + decoded_from(s@, decode, i as int) =~= out@ + decoded_from(
                s@,
                decode,
                i + 1,
            ));
            i = i + 1;
        }
    }
    assert(out@ + decoded_from(s@, decode, i as int) =~= out@);
    string_from_chars(&out)
}

/// Decodes the `%XX` escapes of `source`.
pub fn url_decode(source: &str) -> (r: String)
    requires
        escapes_ok_from(source@, 0),
    ensures
        r@ == decoded_from(source@, true, 0),
{
    process_decoded_string(source, 0)
}

/// Drops the `%XX` escapes of `source`.
pub fn url_remove(source: &str) -> (r: String)
    ensures
        r@ == decoded_from(source@, false, 0),
{
    process_decoded_string(source, 1)
}

} // verus!
