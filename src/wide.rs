use crate::sort::{lemma_two_pow_mono, lemma_two_pow_positive, two_pow};
use vstd::prelude::*;

verus! {

/// The base of a limb: `2^64`.
pub open spec fn limb_base() -> nat {
    0x1_0000_0000_0000_0000
}

/// `limb_base()` raised to `i`.
pub open spec fn base_pow(i: nat) -> nat
    decreases i,
{
    if i == 0 {
        1
    } else {
        limb_base() * base_pow((i - 1) as nat)
    }
}

/// The natural number whose base-`2^64` digits, least significant first,
/// are `s`.
pub open spec fn value_of(s: Seq<u64>) -> nat
    decreases s.len(),
{
    if s.len() == 0 {
        0
    } else {
        value_of(s.drop_last()) + (s.last() as nat) * base_pow((s.len() - 1) as nat)
    }
}

/// `b` raised to `e`.
pub open spec fn power(b: nat, e: nat) -> nat
    decreases e,
{
    if e == 0 {
        1
    } else {
        b * power(b, (e - 1) as nat)
    }
}

proof fn lemma_carry_step(vr: int, carry: int, x: int, p: int, vi: int, w: int, lo: int, hi: int)
    requires
        lo + hi * limb_base() == vi * w + carry,
        vr + carry * x == w * p,
    ensures
        (vr + lo * x) + hi * (limb_base() * x) == w * (p + vi * x),
{
    assert((vr + lo * x) + hi * (limb_base() * x) == vr + (lo + hi * limb_base()) * x) by (nonlinear_arith);
    assert((vi * w + carry) * x == vi * w * x + carry * x) by (nonlinear_arith);
    assert(w * (p + vi * x) == w * p + vi * w * x) by (nonlinear_arith);
}

/// `v · w`, for a number `v` given by its limbs.
pub fn mul_word(v: &Vec<u64>, w: u64) -> (r: Vec<u64>)
    ensures
        value_of(r@) == value_of(v@) * w,
{
    let mut r: Vec<u64> = Vec::new();
    let mut carry: u64 = 0;
    let mut i: usize = 0;
    proof {
        assert(v@.subrange(0, 0) =~= Seq::<u64>::empty());
        assert(value_of(v@.subrange(0, 0)) == 0);
        assert(value_of(r@) == 0);
        assert(w * 0 == 0);
        assert((carry as nat) * base_pow(0) == 0);
    }
    while i < v.len()
        invariant
            i <= v@.len(),
            r@.len() == i,
            value_of(r@) + (carry as nat) * base_pow(i as nat) == w * value_of(v@.subrange(0, i as int)),
        decreases v@.len() - i,
    {
        assert((v[i as int] as u128) * (w as u128) <= 0xffff_ffff_ffff_fffe_0000_0000_0000_0001) by (nonlinear_arith)
            requires v[i as int] <= 0xffff_ffff_ffff_ffff, w <= 0xffff_ffff_ffff_ffff;
        let t: u128 = (v[i] as u128) * (w as u128) + carry as u128;
        let lo = (t % 0x1_0000_0000_0000_0000) as u64;
        let hi = (t / 0x1_0000_0000_0000_0000) as u64;
        let ghost before = r@;
        proof {
            let sub = v@.subrange(0, i + 1);
            assert(sub.drop_last() =~= v@.subrange(0, i as int));
            assert(value_of(sub) == value_of(v@.subrange(0, i as int)) + (v@[i as int] as nat) * base_pow(i as nat));
            lemma_carry_step(
                value_of(before) as int,
                carry as int,
                base_pow(i as nat) as int,
                value_of(v@.subrange(0, i as int)) as int,
                v@[i as int] as int,
                w as int,
                lo as int,
                hi as int,
            );
        }
        r.push(lo);
        proof {
            assert(r@.drop_last() =~= before);
            assert(value_of(r@) == value_of(before) + (lo as nat) * base_pow(i as nat));
            assert(base_pow((i + 1) as nat) == limb_base() * base_pow(i as nat));
        }
        carry = hi;
        i = i + 1;
    }
    let ghost before = r@;
    r.push(carry);
    proof {
        assert(r@.drop_last() =~= before);
        assert(value_of(r@) == value_of(before) + (carry as nat) * base_pow(before.len()));
        assert(v@.subrange(0, v@.len() as int) =~= v@);
        assert(value_of(r@) == w * value_of(v@));
        assert(w * value_of(v@) == value_of(v@) * w) by (nonlinear_arith);
    }
    r
}

/// The limbs of `n^n`.
pub fn power_of_self(n: u64) -> (r: Vec<u64>)
    ensures
        value_of(r@) == power(n as nat, n as nat),
{
    let mut r: Vec<u64> = Vec::new();
    r.push(1);
    proof {
        assert(r@.drop_last() =~= Seq::<u64>::empty());
        assert(value_of(r@.drop_last()) == 0);
        assert(base_pow(0) == 1);
        assert(value_of(r@) == 0 + 1 * 1);
    }
    let mut j: u64 = 0;
    while j < n
        invariant
            j <= n,
            value_of(r@) == power(n as nat, j as nat),
        decreases n - j,
    {
        let ghost before = value_of(r@);
        r = mul_word(&r, n);
        proof {
            let pj = power(n as nat, j as nat);
            assert(power(n as nat, (j + 1) as nat) == n * pj);
            assert(value_of(r@) == n * pj) by (nonlinear_arith)
                requires value_of(r@) == before * n, before == pj;
        }
        j = j + 1;
    }
    r
}

pub proof fn lemma_two_pow_add(a: nat, b: nat)
    ensures
        two_pow(a + b) == two_pow(a) * two_pow(b),
    decreases a,
{
    if a > 0 {
        lemma_two_pow_add((a - 1) as nat, b);
        assert(two_pow(a) == 2 * two_pow((a - 1) as nat));
        assert(two_pow(a + b) == 2 * two_pow((a - 1 + b) as nat));
        assert(((a - 1) as nat + b) as nat == (a - 1 + b) as nat);
        assert(2 * (two_pow((a - 1) as nat) * two_pow(b)) == (2 * two_pow((a - 1) as nat)) * two_pow(b)) by (nonlinear_arith);
    } else {
        assert(two_pow(0) == 1);
        assert(a + b == b);
    }
}

proof fn lemma_base_pow_is_two_pow(i: nat)
    ensures
        base_pow(i) == two_pow(64 * i),
    decreases i,
{
    if i > 0 {
        lemma_base_pow_is_two_pow((i - 1) as nat);
        lemma_two_pow_add(64, (64 * (i - 1)) as nat);
        reveal_with_fuel(two_pow, 65);
        assert(two_pow(64) == limb_base());
        assert(64 + 64 * (i - 1) == 64 * i);
    }
}

proof fn lemma_value_below(s: Seq<u64>)
    ensures
        value_of(s) < base_pow(s.len()),
    decreases s.len(),
{
    if s.len() > 0 {
        let k = (s.len() - 1) as nat;
        lemma_value_below(s.drop_last());
        let x = base_pow(k);
        let d = s.last() as nat;
        assert(value_of(s) < x + d * x);
        assert(x + d * x <= limb_base() * x) by (nonlinear_arith)
            requires d < limb_base(), x >= 0;
    }
}

proof fn lemma_zero_limbs_above(s: Seq<u64>, m: int)
    requires
        0 <= m <= s.len(),
        forall|k: int| m <= k < s.len() ==> s[k] == 0,
    ensures
        value_of(s) == value_of(s.subrange(0, m)),
    decreases s.len(),
{
    if s.len() > m {
        lemma_zero_limbs_above(s.drop_last(), m);
        assert(s.drop_last().subrange(0, m) =~= s.subrange(0, m));
        assert(s.last() == 0);
    } else {
        assert(s.subrange(0, m) =~= s);
    }
}

/// The number of bits of a nonzero word: `2^(b−1) ≤ x < 2^b`.
fn word_bits(x: u64) -> (b: u64)
    requires
        x > 0,
    ensures
        1 <= b <= 64,
        two_pow((b - 1) as nat) <= x < two_pow(b as nat),
{
    let mut p: u128 = 1;
    let mut b: u64 = 0;
    while p <= x as u128
        invariant
            p == two_pow(b as nat),
            b <= 64,
            b > 0 ==> p <= 2 * (x as u128),
            x > 0,
        decreases 64 - b,
    {
        proof {
            if b >= 64 {
                lemma_two_pow_mono(64, b as nat);
                reveal_with_fuel(two_pow, 65);
            }
        }
        p = p * 2;
        b = b + 1;
    }
    proof {
        assert(b >= 1) by {
            if b == 0 {
                assert(p == 1);
            }
        }
        assert(two_pow(b as nat) == 2 * two_pow((b - 1) as nat));
    }
    b
}

/// The number of bits of a nonzero number given by its limbs:
/// `2^(r−1) ≤ value < 2^r`.
pub fn bit_length(v: &Vec<u64>) -> (r: u128)
    requires
        value_of(v@) > 0,
    ensures
        r >= 1,
        two_pow((r - 1) as nat) <= value_of(v@) < two_pow(r as nat),
{
    let mut top: usize = v.len();
    while top > 0 && v[top - 1] == 0
        invariant
            top <= v@.len(),
            forall|k: int| top <= k < v@.len() ==> v@[k] == 0,
        decreases top,
    {
        top = top - 1;
    }
    proof {
        lemma_zero_limbs_above(v@, top as int);
        if top == 0 {
            assert(v@.subrange(0, 0) =~= Seq::<u64>::empty());
        }
    }
    let t = top - 1;
    let b = word_bits(v[t]);
    proof {
        let s = v@.subrange(0, top as int);
        assert(s.drop_last() =~= v@.subrange(0, t as int));
        let low = value_of(v@.subrange(0, t as int));
        let d = v@[t as int] as nat;
        let x = base_pow(t as nat);
        assert(value_of(v@) == low + d * x);
        lemma_value_below(v@.subrange(0, t as int));
        assert(low < x);
        lemma_base_pow_is_two_pow(t as nat);
        lemma_two_pow_add((b - 1) as nat, (64 * t) as nat);
        lemma_two_pow_add(b as nat, (64 * t) as nat);
        let lo_b = two_pow((b - 1) as nat);
        let hi_b = two_pow(b as nat);
        assert(lo_b * x <= d * x) by (nonlinear_arith)
            requires lo_b <= d, x >= 0;
        assert(low + d * x < hi_b * x) by (nonlinear_arith)
            requires low < x, d + 1 <= hi_b, x >= 0;
        assert((b - 1) as nat + 64 * t == (64 * t + b - 1) as nat);
        assert(b as nat + 64 * t == (64 * t + b) as nat);
    }
    64 * (t as u128) + b as u128
}

} // verus!
