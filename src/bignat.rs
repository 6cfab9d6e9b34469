//! Natural numbers of any size, as little-endian sequences of 64-bit limbs, with
//! the few operations that exact score comparisons need.
use vstd::arithmetic::div_mod::{lemma_fundamental_div_mod, lemma_mod_pos_bound};
use vstd::prelude::*;

verus! {

/// The base of one limb, 2^64.
pub open spec fn limb_base() -> nat {
    0x1_0000_0000_0000_0000
}

/// `limb_base()` to the power `k`.
pub open spec fn base_pow(k: nat) -> nat
    decreases k,
{
    if k == 0 {
        1
    } else {
        base_pow((k - 1) as nat) * limb_base()
    }
}

/// Limb `i` of `s`; 0 past its end.
pub open spec fn limb(s: Seq<u64>, i: int) -> nat {
    if 0 <= i < s.len() {
        s[i] as nat
    } else {
        0
    }
}

/// The number spelled by the first `k` limbs of `s`.
pub open spec fn value_upto(s: Seq<u64>, k: nat) -> nat
    decreases k,
{
    if k == 0 {
        0
    } else {
        value_upto(s, (k - 1) as nat) + limb(s, k - 1) * base_pow((k - 1) as nat)
    }
}

/// The number spelled by the limbs of `s`.
pub open spec fn value(s: Seq<u64>) -> nat {
    value_upto(s, s.len())
}

proof fn lemma_base_pow_pos(k: nat)
    ensures
        base_pow(k) > 0,
    decreases k,
{
    if k > 0 {
        lemma_base_pow_pos((k - 1) as nat);
        let p = base_pow((k - 1) as nat);
        assert(p * limb_base() > 0) by (nonlinear_arith)
            requires
                p > 0,
                limb_base() > 0,
        ;
    }
}

proof fn lemma_value_upto_bound(s: Seq<u64>, k: nat)
    ensures
        value_upto(s, k) < base_pow(k),
    decreases k,
{
    if k > 0 {
        let k1 = (k - 1) as nat;
        lemma_value_upto_bound(s, k1);
        lemma_base_pow_pos(k1);
        let p = base_pow(k1);
        let v = value_upto(s, k1);
        let l = limb(s, k1 as int);
        assert(v + l * p < p * limb_base()) by (nonlinear_arith)
            requires
                v < p,
                l < limb_base(),
                p > 0,
        ;
    }
}

proof fn lemma_value_upto_pad(s: Seq<u64>, k: nat)
    requires
        k >= s.len(),
    ensures
        value_upto(s, k) == value(s),
    decreases k,
{
    if k > s.len() {
        lemma_value_upto_pad(s, (k - 1) as nat);
    }
}

proof fn lemma_value_upto_push(s: Seq<u64>, v: u64, k: nat)
    requires
        k <= s.len(),
    ensures
        value_upto(s.push(v), k) == value_upto(s, k),
    decreases k,
{
    if k > 0 {
        lemma_value_upto_push(s, v, (k - 1) as nat);
    }
}

proof fn lemma_split(x: u128, b: u128) -> (r: (u128, u128))
    requires
        b > 0,
    ensures
        x == r.0 * b + r.1,
        r.1 < b,
        r.0 == x / b,
        r.1 == x % b,
{
    lemma_fundamental_div_mod(x as int, b as int);
    lemma_mod_pos_bound(x as int, b as int);
    let q = x / b;
    let m = x % b;
    assert(x == q * b + m) by (nonlinear_arith)
        requires
            x == b * q + m,
    ;
    (q, m)
}

fn limb_at(s: &Vec<u64>, i: usize) -> (r: u64)
    ensures
        r as nat == limb(s@, i as int),
{
    if i < s.len() {
        s[i]
    } else {
        0
    }
}

/// The number `x`.
pub fn big_from(x: u128) -> (r: Vec<u64>)
    ensures
        value(r@) == x,
{
    proof {
        lemma_split(x, 0x1_0000_0000_0000_0000);
    }
    let lo = (x % 0x1_0000_0000_0000_0000) as u64;
    let hi = (x / 0x1_0000_0000_0000_0000) as u64;
    let mut r: Vec<u64> = Vec::new();
    r.push(lo);
    r.push(hi);
    assert(base_pow(1) == limb_base()) by {
        assert(base_pow(0) == 1);
    }
    assert(limb(r@, 0) == lo && limb(r@, 1) == hi);
    assert(base_pow(0) == 1);
    assert(value_upto(r@, 0) == 0);
    assert(value_upto(r@, 1) == value_upto(r@, 0) + limb(r@, 0) * base_pow(0));
    assert(value_upto(r@, 1) == lo);
    assert(value_upto(r@, 2) == lo + hi * limb_base());
    r
}

/// `x * c` for a single-limb factor `c`.
pub fn big_mul_limb(x: &Vec<u64>, c: u64) -> (r: Vec<u64>)
    ensures
        value(r@) == value(x@) * c,
{
    let mut out: Vec<u64> = Vec::new();
    let mut carry: u64 = 0;
    let mut i: usize = 0;
    assert(value_upto(out@, 0) == 0 && value_upto(x@, 0) == 0);
    assert(value_upto(x@, 0) * c == 0);
    while i < x.len()
        invariant
            0 <= i <= x@.len(),
            out@.len() == i,
            value_upto(out@, i as nat) + carry * base_pow(i as nat) == value_upto(x@, i as nat) * c,
        decreases x@.len() - i,
    {
        let xi = x[i];
        assert((xi as int) * (c as int) + (carry as int) <= 0xFFFF_FFFF_FFFF_FFFF * 0xFFFF_FFFF_FFFF_FFFF
            + 0xFFFF_FFFF_FFFF_FFFF) by (nonlinear_arith)
            requires
                0 <= xi <= 0xFFFF_FFFF_FFFF_FFFF,
                0 <= c <= 0xFFFF_FFFF_FFFF_FFFF,
                0 <= carry <= 0xFFFF_FFFF_FFFF_FFFF,
        ;
        let prod: u128 = (xi as u128) * (c as u128) + (carry as u128);
        let ghost parts = lemma_split(prod, 0x1_0000_0000_0000_0000);
        let lo = (prod % 0x1_0000_0000_0000_0000) as u64;
        let hi = (prod / 0x1_0000_0000_0000_0000) as u64;
        let ghost p = base_pow(i as nat);
        let ghost vo = value_upto(out@, i as nat);
        let ghost vx = value_upto(x@, i as nat);
        proof {
            lemma_value_upto_push(out@, lo, i as nat);
        }
        out.push(lo);
        assert(limb(out@, i as int) == lo);
        assert(limb(x@, i as int) == xi);
        assert(vo + lo * p + hi * (p * limb_base()) == (vx + xi * p) * c) by (nonlinear_arith)
            requires
                vo + carry * p == vx * c,
                prod == hi * limb_base() + lo,
                prod == xi * c + carry,
        ;
        carry = hi;
        i = i + 1;
    }
    let ghost n = x@.len();
    proof {
        lemma_value_upto_push(out@, carry, n);
    }
    out.push(carry);
    assert(limb(out@, n as int) == carry);
    assert(value_upto(out@, n + 1) == value_upto(out@, n) + carry * base_pow(n));
    out
}

/// `x + y`.
pub fn big_add(x: &Vec<u64>, y: &Vec<u64>) -> (r: Vec<u64>)
    ensures
        value(r@) == value(x@) + value(y@),
{
    let m = if x.len() >= y.len() {
        x.len()
    } else {
        y.len()
    };
    let mut out: Vec<u64> = Vec::new();
    let mut carry: u64 = 0;
    let mut i: usize = 0;
    assert(value_upto(out@, 0) == 0 && value_upto(x@, 0) == 0 && value_upto(y@, 0) == 0);
    while i < m
        invariant
            0 <= i <= m,
            m >= x@.len(),
            m >= y@.len(),
            out@.len() == i,
            carry <= 1,
            value_upto(out@, i as nat) + carry * base_pow(i as nat) == value_upto(x@, i as nat)
                + value_upto(y@, i as nat),
        decreases m - i,
    {
        let a = limb_at(x, i);
        let b = limb_at(y, i);
        let sum: u128 = (a as u128) + (b as u128) + (carry as u128);
        let ghost parts = lemma_split(sum, 0x1_0000_0000_0000_0000);
        let lo = (sum % 0x1_0000_0000_0000_0000) as u64;
        let hi = (sum / 0x1_0000_0000_0000_0000) as u64;
        let ghost p = base_pow(i as nat);
        let ghost vo = value_upto(out@, i as nat);
        let ghost vx = value_upto(x@, i as nat);
        let ghost vy = value_upto(y@, i as nat);
        proof {
            lemma_value_upto_push(out@, lo, i as nat);
        }
        out.push(lo);
        assert(limb(out@, i as int) == lo);
        assert(vo + lo * p + hi * (p * limb_base()) == (vx + a * p) + (vy + b * p)) by (nonlinear_arith)
            requires
                vo + carry * p == vx + vy,
                sum == hi * limb_base() + lo,
                sum == a + b + carry,
        ;
        carry = hi;
        i = i + 1;
    }
    proof {
        lemma_value_upto_push(out@, carry, m as nat);
        lemma_value_upto_pad(x@, m as nat);
        lemma_value_upto_pad(y@, m as nat);
    }
    out.push(carry);
    assert(limb(out@, m as int) == carry);
    assert(value_upto(out@, (m + 1) as nat) == value_upto(out@, m as nat) + carry * base_pow(m as nat));
    out
}

/// `x * c`.
pub fn big_mul(x: &Vec<u64>, c: u128) -> (r: Vec<u64>)
    ensures
        value(r@) == value(x@) * c,
{
    proof {
        lemma_split(c, 0x1_0000_0000_0000_0000);
    }
    let lo = (c % 0x1_0000_0000_0000_0000) as u64;
    let hi = (c / 0x1_0000_0000_0000_0000) as u64;
    let low_part = big_mul_limb(x, lo);
    let h1 = big_mul_limb(x, hi);
    let h2 = big_mul_limb(&h1, 0x1_0000_0000);
    let high_part = big_mul_limb(&h2, 0x1_0000_0000);
    let r = big_add(&low_part, &high_part);
    let ghost v = value(x@);
    assert(v * lo + v * hi * 0x1_0000_0000 * 0x1_0000_0000 == v * c) by (nonlinear_arith)
        requires
            c == hi * 0x1_0000_0000_0000_0000 + lo,
    ;
    r
}

/// Whether `x < y`.
pub fn big_lt(x: &Vec<u64>, y: &Vec<u64>) -> (r: bool)
    ensures
        r == (value(x@) < value(y@)),
{
    let m = if x.len() >= y.len() {
        x.len()
    } else {
        y.len()
    };
    proof {
        lemma_value_upto_pad(x@, m as nat);
        lemma_value_upto_pad(y@, m as nat);
    }
    let mut k: usize = m;
    while k > 0
        invariant
            k <= m,
            (value(x@) < value(y@)) == (value_upto(x@, k as nat) < value_upto(y@, k as nat)),
        decreases k,
    {
        let a = limb_at(x, k - 1);
        let b = limb_at(y, k - 1);
        let ghost k1 = (k - 1) as nat;
        let ghost p = base_pow(k1);
        let ghost vx = value_upto(x@, k1);
        let ghost vy = value_upto(y@, k1);
        proof {
            lemma_value_upto_bound(x@, k1);
            lemma_value_upto_bound(y@, k1);
        }
        assert(value_upto(x@, k as nat) == vx + a * p);
        assert(value_upto(y@, k as nat) == vy + b * p);
        if a < b {
            assert(vx + a * p < vy + b * p) by (nonlinear_arith)
                requires
                    vx < p,
                    vy >= 0,
                    a + 1 <= b,
            ;
            return true;
        }
        if a > b {
            assert(vy + b * p < vx + a * p) by (nonlinear_arith)
                requires
                    vy < p,
                    vx >= 0,
                    b + 1 <= a,
            ;
            return false;
        }
        k = k - 1;
    }
    false
}

} // verus!
