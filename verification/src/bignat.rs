//! Arbitrary-size natural numbers held as little-endian 32-bit limbs.
//!
//! Only what entropy needs is here: building a product of powers and
//! taking the floor of its base-2 logarithm, both exactly.

use vstd::arithmetic::power::*;
use vstd::arithmetic::power2::*;
use vstd::prelude::*;

verus! {

/// The number that little-endian limbs `s` stand for.
pub open spec fn limbs_value(s: Seq<u32>) -> nat
    decreases s.len(),
{
    if s.len() == 0 {
        0
    } else {
        limbs_value(s.drop_last()) + (s.last() as nat) * pow2((32 * (s.len() - 1)) as nat)
    }
}

/// `floor(log2(x))` for `x >= 1` (and 0 for `x == 0`).
pub open spec fn log2_floor(x: nat) -> nat
    decreases x,
{
    if x < 2 {
        0
    } else {
        1 + log2_floor(x / 2)
    }
}

/// `pow(b, e + 1) == b * pow(b, e)`.
pub proof fn lemma_pow_succ(b: int, e: nat)
    ensures
        pow(b, e + 1) == b * pow(b, e),
{
    lemma_pow_adds(b, e, 1);
    lemma_pow1(b);
    let q = pow(b, e);
    assert(q * b == b * q) by (nonlinear_arith);
}

/// The floor logarithm brackets its argument between two powers of two.
pub proof fn lemma_log2_floor_bounds(x: nat)
    requires
        x >= 1,
    ensures
        pow2(log2_floor(x)) <= x < pow2(log2_floor(x) + 1),
    decreases x,
{
    if x < 2 {
        lemma2_to64();
    } else {
        lemma_log2_floor_bounds(x / 2);
        let m = log2_floor(x / 2);
        lemma_pow2_unfold(m + 1);
        lemma_pow2_unfold(m + 2);
    }
}

/// Only the floor logarithm brackets `x` between consecutive powers of two.
pub proof fn lemma_log2_floor_unique(x: nat, m: nat)
    requires
        pow2(m) <= x < pow2(m + 1),
    ensures
        m == log2_floor(x),
{
    lemma_pow2_pos(m);
    lemma_log2_floor_bounds(x);
    let f = log2_floor(x);
    if m < f {
        if m + 1 < f {
            lemma_pow2_strictly_increases(m + 1, f);
        }
    } else if f < m {
        if f + 1 < m {
            lemma_pow2_strictly_increases(f + 1, m);
        }
    }
}

proof fn lemma_value_push(s: Seq<u32>, x: u32)
    ensures
        limbs_value(s.push(x)) == limbs_value(s) + (x as nat) * pow2((32 * s.len()) as nat),
{
    assert(s.push(x).drop_last() =~= s);
}

proof fn lemma_value_bound(s: Seq<u32>)
    ensures
        limbs_value(s) < pow2((32 * s.len()) as nat),
    decreases s.len(),
{
    if s.len() == 0 {
        lemma2_to64();
    } else {
        let d = s.drop_last();
        lemma_value_bound(d);
        let p = pow2((32 * d.len()) as nat);
        lemma_pow2_adds((32 * d.len()) as nat, 32);
        lemma2_to64();
        let l = s.last() as nat;
        assert(l * p <= 4294967295 * p) by (nonlinear_arith)
            requires
                l <= 4294967295,
                p >= 0,
        ;
        assert((32 * d.len()) as nat + 32 == (32 * s.len()) as nat);
    }
}

proof fn lemma_value_zero_top(s: Seq<u32>, t: int)
    requires
        0 <= t <= s.len(),
        forall|j: int| t <= j < s.len() ==> s[j] == 0,
    ensures
        limbs_value(s) == limbs_value(s.take(t)),
    decreases s.len(),
{
    if s.len() == t {
        assert(s.take(t) =~= s);
    } else {
        let d = s.drop_last();
        lemma_value_zero_top(d, t);
        assert(d.take(t) =~= s.take(t));
    }
}

proof fn lemma_mul_step(vr: int, va: int, ai: int, k: int, carry: int, lo: int, hi: int, p: int)
    by (nonlinear_arith)
    requires
        vr + carry * p == va * k,
        lo + hi * 4294967296 == ai * k + carry,
    ensures
        vr + lo * p + hi * (4294967296 * p) == (va + ai * p) * k,
{
}

/// The limbs of the number one.
pub fn one() -> (r: Vec<u32>)
    ensures
        limbs_value(r@) == 1,
        r.len() == 1,
{
    let r = vec![1u32];
    proof {
        lemma2_to64();
        assert(r@.drop_last() =~= Seq::<u32>::empty());
        assert(limbs_value(Seq::<u32>::empty()) == 0);
        assert(limbs_value(r@) == limbs_value(r@.drop_last()) + (r@.last() as nat) * pow2(0));
    }
    r
}

/// Multiplies a number by a 32-bit factor.
pub fn mul_small(a: &Vec<u32>, k: u32) -> (r: Vec<u32>)
    ensures
        limbs_value(r@) == limbs_value(a@) * k,
        r.len() <= a.len() + 1,
{
    let mut r: Vec<u32> = Vec::new();
    let mut carry: u64 = 0;
    let mut i: usize = 0;
    proof {
        lemma2_to64();
        assert(a@.take(0) =~= Seq::<u32>::empty());
        assert(limbs_value(Seq::<u32>::empty()) == 0);
        assert(limbs_value(r@) == 0);
        assert(carry * pow2(0) == 0);
        assert(limbs_value(a@.take(0)) * k == 0);
    }
    while i < a.len()
        invariant
            i <= a.len(),
            r.len() == i,
            carry <= 4294967295,
            limbs_value(r@) + carry * pow2((32 * i) as nat) == limbs_value(a@.take(i as int)) * k,
        decreases a.len() - i,
    {
        let ai = a[i];
        assert((ai as u64) * (k as u64) <= 18446744065119617025) by (nonlinear_arith)
            requires
                ai <= 4294967295,
                k <= 4294967295,
        ;
        let t: u64 = (ai as u64) * (k as u64) + carry;
        let lo: u32 = (t % 4294967296) as u32;
        let hi: u64 = t / 4294967296;
        proof {
            let p = pow2((32 * i) as nat);
            lemma2_to64();
            lemma_value_push(r@, lo);
            assert(a@.take(i as int + 1).drop_last() =~= a@.take(i as int));
            lemma_pow2_adds((32 * i) as nat, 32);
            assert((32 * i) as nat + 32 == (32 * (i + 1)) as nat);
            assert(lo + hi * 4294967296 == ai * k + carry);
            lemma_mul_step(
                limbs_value(r@) as int,
                limbs_value(a@.take(i as int)) as int,
                ai as int,
                k as int,
                carry as int,
                lo as int,
                hi as int,
                p as int,
            );
            assert(limbs_value(a@.take(i as int + 1)) == limbs_value(a@.take(i as int)) + (ai as nat) * p);
            assert(pow2((32 * (i + 1)) as nat) == 4294967296 * p);
            assert(limbs_value(r@.push(lo)) == limbs_value(r@) + (lo as nat) * p);
        }
        r.push(lo);
        carry = hi;
        i = i + 1;
    }
    proof {
        assert(a@.take(a.len() as int) =~= a@);
    }
    if carry > 0 {
        proof {
            lemma_value_push(r@, carry as u32);
        }
        r.push(carry as u32);
    }
    r
}

/// Floor of the base-2 logarithm of a 32-bit number.
fn log2_floor_u32(x: u32) -> (m: u64)
    requires
        x >= 1,
    ensures
        m == log2_floor(x as nat),
        m < 32,
{
    let mut y: u32 = x;
    let mut m: u64 = 0;
    proof {
        lemma_log2_floor_bounds(x as nat);
        lemma2_to64();
        if log2_floor(x as nat) >= 32 {
            lemma_pow2_strictly_increases(32, log2_floor(x as nat));
        }
    }
    while y > 1
        invariant
            y >= 1,
            m + log2_floor(y as nat) == log2_floor(x as nat),
            m + log2_floor(y as nat) < 32,
        decreases y,
    {
        y = y / 2;
        m = m + 1;
    }
    m
}

/// Floor of the base-2 logarithm of a positive number given by limbs.
pub fn log2_floor_limbs(a: &Vec<u32>) -> (m: u64)
    requires
        limbs_value(a@) >= 1,
        a.len() <= 0x1_0000_0000_0000,
    ensures
        m == log2_floor(limbs_value(a@)),
        m < 0x40_0000_0000_0000,
{
    let mut top: usize = a.len();
    while top > 0 && a[top - 1] == 0
        invariant
            top <= a.len(),
            forall|j: int| top <= j < a.len() ==> a@[j] == 0,
        decreases top,
    {
        top = top - 1;
    }
    proof {
        lemma_value_zero_top(a@, top as int);
        if top == 0 {
            assert(a@.take(0) =~= Seq::<u32>::empty());
        }
    }
    let t = top - 1;
    let limb = a[t];
    let mb = log2_floor_u32(limb);
    let m: u64 = 32 * (t as u64) + mb;
    proof {
        let s = a@.take(top as int);
        let low = s.drop_last();
        assert(low =~= a@.take(t as int));
        let p = pow2((32 * t) as nat);
        lemma_value_bound(low);
        lemma_log2_floor_bounds(limb as nat);
        let v = limbs_value(a@);
        assert(v == limbs_value(low) + (limb as nat) * p);
        let lo2 = pow2(mb as nat);
        let hi2 = pow2((mb + 1) as nat);
        assert(lo2 * p <= (limb as nat) * p) by (nonlinear_arith)
            requires
                lo2 <= limb,
                p >= 0,
        ;
        assert((limb as nat) * p + p <= hi2 * p) by (nonlinear_arith)
            requires
                limb + 1 <= hi2,
                p >= 0,
        ;
        lemma_pow2_adds(mb as nat, (32 * t) as nat);
        lemma_pow2_adds((mb + 1) as nat, (32 * t) as nat);
        assert(m as nat == mb as nat + (32 * t) as nat);
        lemma_log2_floor_unique(v, m as nat);
    }
    m
}

/// `floor(log2(a^e1 * c^e2))`, computed exactly.
pub fn log2_floor_of_powers(a: u32, e1: u64, c: u32, e2: u64) -> (m: u64)
    requires
        a >= 1,
        c >= 1,
        e1 + e2 < 0x1_0000_0000_0000,
    ensures
        m == log2_floor((pow(a as int, e1 as nat) * pow(c as int, e2 as nat)) as nat),
        m < 0x40_0000_0000_0000,
{
    let mut x = one();
    let mut i: u64 = 0;
    proof {
        lemma_pow0(a as int);
        lemma_pow0(c as int);
    }
    while i < e1
        invariant
            i <= e1,
            limbs_value(x@) == pow(a as int, i as nat),
            x.len() <= i + 1,
        decreases e1 - i,
    {
        proof {
            lemma_pow_succ(a as int, i as nat);
        }
        x = mul_small(&x, a);
        i = i + 1;
    }
    let mut j: u64 = 0;
    while j < e2
        invariant
            j <= e2,
            e1 + e2 < 0x1_0000_0000_0000,
            limbs_value(x@) == pow(a as int, e1 as nat) * pow(c as int, j as nat),
            x.len() <= e1 + j + 1,
        decreases e2 - j,
    {
        proof {
            lemma_pow_succ(c as int, j as nat);
            let pa = pow(a as int, e1 as nat);
            let pc = pow(c as int, j as nat);
            assert(pa * (c * pc) == (pa * pc) * c) by (nonlinear_arith);
        }
        x = mul_small(&x, c);
        j = j + 1;
    }
    proof {
        lemma_pow_positive(a as int, e1 as nat);
        lemma_pow_positive(c as int, e2 as nat);
        let pa = pow(a as int, e1 as nat);
        let pc = pow(c as int, e2 as nat);
        assert(pa * pc >= 1) by (nonlinear_arith)
            requires
                pa >= 1,
                pc >= 1,
        ;
    }
    log2_floor_limbs(&x)
}

} // verus!
