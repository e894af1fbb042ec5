//! Entropy of passphrases and passwords, in exact integer arithmetic.
//!
//! A passphrase of `w` words from the list and `d` random digits is one of
//! `7776^w * 10^d` equally likely results; a password of `n` characters
//! from an alphabet of `a` is one of `a^n`. Its entropy in bits is the
//! base-2 logarithm of that count, so "reaches `b` bits" means "the count
//! is at least `2^b`", which is decided here without rounding.

use crate::bignat::{
    lemma_log2_floor_bounds, lemma_pow_succ, limbs_value, log2_floor, log2_floor_limbs,
    log2_floor_of_powers, mul_small, one,
};
use crate::text::{decimal, fixed_point, push_decimal, push_fixed_point};
use vstd::arithmetic::power::*;
use vstd::arithmetic::power2::*;
use vstd::prelude::*;
use vstd::string::*;

verus! {

/// Number of words in the word list.
pub const EXPECTED_WORDS: u64 = 7776;

/// `log2(7776)` in units of `10^-18` bits, rounded down.
pub const WORD_BITS_E18: u64 = 12924812503605780907;

/// `log2(10)` in units of `10^-18` bits, rounded down.
pub const DIGIT_BITS_E18: u64 = 3321928094887362347;

/// `log2(62)` in units of `10^-18` bits, rounded down.
pub const ALNUM_CHAR_BITS_E18: u64 = 5954196310386875208;

/// `log2(88)` in units of `10^-18` bits, rounded down.
pub const SYMBOL_CHAR_BITS_E18: u64 = 6459431618637297256;

/// How many equally likely passphrases there are of `words` words and
/// `digits` digits.
pub open spec fn phrase_outcomes(words: nat, digits: nat) -> nat {
    (pow(7776, words) * pow(10, digits)) as nat
}

/// How many equally likely passwords there are of `len` characters from
/// an alphabet of `alphabet_len`.
pub open spec fn password_outcomes(alphabet_len: nat, len: nat) -> nat {
    pow(alphabet_len as int, len) as nat
}

/// Whether `outcomes` equally likely results carry at least `bits` bits.
pub open spec fn reaches(outcomes: nat, bits: nat) -> bool {
    outcomes >= pow2(bits)
}

/// `scale * log2(x)` rounded to the nearest integer: the `k` with
/// `k - 1/2 <= scale * log2(x) < k + 1/2`, that is
/// `2^(2k-1) <= x^(2*scale) < 2^(2k+1)` (see `lemma_rounded_log2_is_nearest`).
pub open spec fn rounded_log2(x: nat, scale: nat) -> nat {
    (log2_floor(pow(x as int, 2 * scale) as nat) + 1) / 2
}

/// The first count in `from..=max` of units of `base` (after `10^digits`
/// from digits) whose results reach `bits` bits, if there is one.
pub open spec fn least_length(base: nat, digits: nat, bits: nat, from: nat, max: nat) -> Option<nat>
    decreases max + 1 - from,
{
    if from > max {
        None
    } else if reaches((pow(base as int, from) * pow(10, digits)) as nat, bits) {
        Some(from)
    } else {
        least_length(base, digits, bits, from + 1, max)
    }
}

/// The bits still to be reached by units after `digits` digits, rounded
/// to a whole number as in the message of a refused `-b`.
pub open spec fn shown_bits(bits: nat, digits: nat) -> nat {
    let k = rounded_log2(pow(10, digits) as nat, 1);
    if bits >= k {
        (bits - k) as nat
    } else {
        0
    }
}

/// The count that a refused `-b` above `EXACT_COUNT_BITS` reports, where an
/// exact search would need numbers of billions of bits:
/// `ceil((bits - digits*log2(10)) / unit)` with both logarithms taken from
/// their constants in units of `10^-18`.
pub open spec fn estimated_length(bits: nat, digits: nat, unit_e18: nat) -> nat {
    let num = bits * 1000000000000000000;
    let sub = digits * (DIGIT_BITS_E18 as nat);
    let rem: nat = if num > sub {
        (num - sub) as nat
    } else {
        0
    };
    (rem + unit_e18 - 1) as nat / unit_e18
}

/// Largest `-b` whose refusal reports the needed count exactly; above it
/// the count is `estimated_length`.
pub const EXACT_COUNT_BITS: u32 = 65536;

/// The count that a refused `-b` reports: the least count above `max`
/// whose results reach `bits` bits, found exactly for `bits` up to
/// `EXACT_COUNT_BITS` (there `bits` units always suffice, as each unit
/// carries at least one bit), and estimated above.
pub open spec fn needed_length(base: nat, digits: nat, bits: nat, max: nat, unit_e18: nat) -> nat {
    if bits <= EXACT_COUNT_BITS {
        match least_length(base, digits, bits, max + 1, bits) {
            Some(n) => n,
            None => 0,
        }
    } else {
        estimated_length(bits, digits, unit_e18)
    }
}

/// The message for a `-b` that needs more than `max` units.
pub open spec fn too_long_message(
    base: nat,
    bits: nat,
    digits: nat,
    unit_e18: nat,
    max: nat,
    unit: Seq<char>,
) -> Seq<char> {
    "-b "@ + decimal(shown_bits(bits, digits)) + " needs "@ + decimal(
        needed_length(base, digits, bits, max, unit_e18),
    ) + " "@ + unit + ", max is "@ + decimal(max)
}

/// The length `-b bits` asks for: the least count in `1..=max` whose
/// results reach `bits` bits, or the message that no such count exists.
pub open spec fn length_for_bits_spec(
    base: nat,
    unit_e18: nat,
    digits: nat,
    bits: nat,
    max: nat,
    unit: Seq<char>,
) -> Result<u32, Seq<char>> {
    match least_length(base, digits, bits, 1, max) {
        Some(n) => Ok(n as u32),
        None => Err(too_long_message(base, bits, digits, unit_e18, max, unit)),
    }
}

/// The description of a passphrase's entropy.
pub open spec fn phrase_description(words: nat, digits: nat) -> Seq<char> {
    "entropy: "@ + decimal(words) + " words x "@ + fixed_point(rounded_log2(7776, 10), 1)
        + " bits + "@ + decimal(digits) + " digits x 3.3 bits = ~"@ + fixed_point(
        rounded_log2(phrase_outcomes(words, digits), 10),
        1,
    ) + " bits"@
}

/// The description of a password's entropy.
pub open spec fn password_description(alphabet_len: nat, len: nat) -> Seq<char> {
    "entropy: "@ + decimal(len) + " chars x "@ + fixed_point(rounded_log2(alphabet_len, 100), 2)
        + " bits = ~"@ + fixed_point(rounded_log2(password_outcomes(alphabet_len, len), 10), 1)
        + " bits"@
}

/// Whatever `x >= 1` and `scale >= 1`, `rounded_log2(x, scale)` is the
/// nearest integer to `scale * log2(x)`: `x^(2*scale)` lies in
/// `[2^(2k-1), 2^(2k+1))` (the lower bound read as 0 for `k == 0`).
pub proof fn lemma_rounded_log2_is_nearest(x: nat, scale: nat)
    requires
        x >= 1,
    ensures
        ({
            let k = rounded_log2(x, scale);
            let y = pow(x as int, 2 * scale) as nat;
            &&& (k == 0 || pow2((2 * k - 1) as nat) <= y)
            &&& y < pow2(2 * k + 1)
        }),
{
    lemma_pow_positive(x as int, 2 * scale);
    let y = pow(x as int, 2 * scale) as nat;
    lemma_log2_floor_bounds(y);
    let m = log2_floor(y);
    let k = rounded_log2(x, scale);
    if m % 2 == 1 {
        assert(2 * k - 1 == m);
        lemma_pow2_strictly_increases(m + 1, 2 * k + 1);
    } else {
        assert(2 * k == m);
        if k > 0 {
            lemma_pow2_strictly_increases((2 * k - 1) as nat, m);
        }
    }
}

/// Powers grow with their base: `x <= y` gives `x^e <= y^e`.
pub proof fn lemma_pow_base_monotone(x: nat, y: nat, e: nat)
    requires
        x <= y,
    ensures
        0 <= pow(x as int, e) <= pow(y as int, e),
    decreases e,
{
    if e == 0 {
        lemma_pow0(x as int);
        lemma_pow0(y as int);
    } else {
        let e1 = (e - 1) as nat;
        lemma_pow_base_monotone(x, y, e1);
        lemma_pow_succ(x as int, e1);
        lemma_pow_succ(y as int, e1);
        let px = pow(x as int, e1);
        let py = pow(y as int, e1);
        assert(0 <= x * px <= y * py) by (nonlinear_arith)
            requires
                0 <= px <= py,
                0 <= x <= y,
        ;
    }
}

/// Each unit of a base of at least 2 carries at least one bit, so
/// `bits` units always reach `bits` bits.
pub proof fn lemma_bits_units_suffice(base: nat, digits: nat, bits: nat)
    requires
        base >= 2,
    ensures
        reaches((pow(base as int, bits) * pow(10, digits)) as nat, bits),
{
    lemma_pow_base_monotone(2, base, bits);
    lemma_pow_positive(10, digits);
    lemma_pow_positive(2, bits);
    let pb = pow(base as int, bits);
    let pd = pow(10, digits);
    assert(pb <= pb * pd) by (nonlinear_arith)
        requires
            pb >= 0,
            pd >= 1,
    ;
}

/// The count in the message of a refused `-b` (up to `EXACT_COUNT_BITS`)
/// is the least count of all that reaches the target: it exceeds `max`,
/// reaches `bits` bits, and no smaller count does.
pub proof fn lemma_refused_count_is_least(base: nat, unit_e18: nat, digits: nat, bits: nat, max: nat)
    requires
        base >= 2,
        max >= 1,
        bits <= EXACT_COUNT_BITS,
        least_length(base, digits, bits, 1, max) is None,
    ensures
        ({
            let n = needed_length(base, digits, bits, max, unit_e18);
            &&& max < n
            &&& reaches((pow(base as int, n) * pow(10, digits)) as nat, bits)
            &&& forall|m: nat|
                1 <= m < n ==> !reaches((pow(base as int, m) * pow(10, digits)) as nat, bits)
        }),
{
    lemma_least_length_is_least(base, digits, bits, 1, max);
    lemma_least_length_is_least(base, digits, bits, max + 1, bits);
    lemma_bits_units_suffice(base, digits, bits);
    if bits == 0 {
        lemma_pow1(base as int);
        lemma_pow_positive(10, digits);
        lemma2_to64();
        let pd = pow(10, digits);
        assert(base * pd >= 1) by (nonlinear_arith)
            requires
                base >= 2,
                pd >= 1,
        ;
        assert(reaches((pow(base as int, 1) * pow(10, digits)) as nat, bits));
    } else if bits <= max {
        assert(reaches((pow(base as int, bits) * pow(10, digits)) as nat, bits));
    } else {
        let n = needed_length(base, digits, bits, max, unit_e18);
        assert(least_length(base, digits, bits, max + 1, bits) == Some(n));
        assert forall|m: nat| 1 <= m < n implies !reaches(
            (pow(base as int, m) * pow(10, digits)) as nat,
            bits,
        ) by {
            if m <= max {
            } else {
            }
        }
    }
}

/// A smaller target never needs more units: if `-b b2` is met by `n2`
/// units, `-b b1` with `b1 <= b2` is met too, by at most `n2` units.
pub proof fn lemma_length_grows_with_target(
    base: nat,
    unit_e18: nat,
    digits: nat,
    b1: nat,
    b2: nat,
    max: nat,
    unit: Seq<char>,
)
    requires
        b1 <= b2,
        max <= u32::MAX,
    ensures
        length_for_bits_spec(base, unit_e18, digits, b2, max, unit) matches Ok(n2) ==> (
        length_for_bits_spec(base, unit_e18, digits, b1, max, unit) matches Ok(n1) && n1 <= n2),
{
    lemma_least_length_is_least(base, digits, b1, 1, max);
    lemma_least_length_is_least(base, digits, b2, 1, max);
    if b1 < b2 {
        lemma_pow2_strictly_increases(b1, b2);
    }
    match least_length(base, digits, b2, 1, max) {
        Some(n2) => {
            assert(reaches((pow(base as int, n2) * pow(10, digits)) as nat, b1));
        },
        None => {},
    }
}

/// Reaching `bits` bits shows in the rounded figure: `scale * log2(x)`
/// rounds to at least `scale * bits`.
pub proof fn lemma_reached_bits_show_when_rounded(x: nat, bits: nat, scale: nat)
    requires
        reaches(x, bits),
    ensures
        rounded_log2(x, scale) >= scale * bits,
{
    let s2 = 2 * scale;
    lemma_pow_positive(2, bits);
    lemma_pow2_pos(bits);
    lemma_pow_base_monotone(pow2(bits), x, s2);
    lemma_pow_multiplies(2, bits, s2);
    let e = bits * s2;
    lemma_pow_positive(2, e);
    let y = pow(x as int, s2) as nat;
    lemma_pow_positive(x as int, s2);
    assert(y >= pow2(e));
    lemma_reaches_iff_log2(y, e);
    assert(e == 2 * (scale * bits)) by (nonlinear_arith)
        requires
            e == bits * s2,
            s2 == 2 * scale,
    ;
}

/// Entropy is monotone: one more unit never leaves a target unreached.
pub proof fn lemma_reaches_monotone(base: nat, digits: nat, bits: nat, n: nat)
    requires
        base >= 1,
        reaches((pow(base as int, n) * pow(10, digits)) as nat, bits),
    ensures
        reaches((pow(base as int, n + 1) * pow(10, digits)) as nat, bits),
{
    lemma_pow_succ(base as int, n);
    lemma_pow_positive(base as int, n);
    lemma_pow_positive(10, digits);
    let p = pow(base as int, n);
    let q = pow(10, digits);
    assert(p * q <= (base * p) * q) by (nonlinear_arith)
        requires
            p >= 1,
            q >= 1,
            base >= 1,
    ;
}

/// What `least_length` finds is least: it reaches the target, lies in
/// `from..=max`, and no smaller count from `from` on does; when it finds
/// nothing, no count in `from..=max` reaches the target.
pub proof fn lemma_least_length_is_least(base: nat, digits: nat, bits: nat, from: nat, max: nat)
    ensures
        match least_length(base, digits, bits, from, max) {
            Some(n) => {
                &&& from <= n <= max
                &&& reaches((pow(base as int, n) * pow(10, digits)) as nat, bits)
                &&& forall|m: nat|
                    from <= m < n ==> !reaches(
                        (pow(base as int, m) * pow(10, digits)) as nat,
                        bits,
                    )
            },
            None => forall|m: nat|
                from <= m <= max ==> !reaches((pow(base as int, m) * pow(10, digits)) as nat, bits),
        },
    decreases max + 1 - from,
{
    if from <= max {
        lemma_least_length_is_least(base, digits, bits, from + 1, max);
    }
}

proof fn lemma_reaches_iff_log2(x: nat, bits: nat)
    requires
        x >= 1,
    ensures
        reaches(x, bits) == (log2_floor(x) >= bits),
{
    lemma_log2_floor_bounds(x);
    let m = log2_floor(x);
    if m >= bits {
        if m > bits {
            lemma_pow2_strictly_increases(bits, m);
        }
    } else {
        if m + 1 < bits {
            lemma_pow2_strictly_increases(m + 1, bits);
        }
    }
}

/// `scale * log2(a^e1 * c^e2)`, rounded to the nearest integer.
pub fn rounded_log2_of_powers(a: u32, e1: u64, c: u32, e2: u64, scale: u64) -> (k: u64)
    requires
        a >= 1,
        c >= 1,
        1 <= scale <= 1000,
        (e1 + e2) * 2 * scale < 0x1_0000_0000_0000,
    ensures
        k == rounded_log2((pow(a as int, e1 as nat) * pow(c as int, e2 as nat)) as nat, scale as nat),
{
    assert(e1 * 2 * scale + e2 * 2 * scale < 0x1_0000_0000_0000 && e1 * 2 <= e1 * 2 * scale && e2 * 2
        <= e2 * 2 * scale) by (nonlinear_arith)
        requires
            (e1 + e2) * 2 * scale < 0x1_0000_0000_0000,
            scale >= 1,
    ;
    let f1 = e1 * 2 * scale;
    let f2 = e2 * 2 * scale;
    let m = log2_floor_of_powers(a, f1, c, f2);
    proof {
        let pa = pow(a as int, e1 as nat);
        let pc = pow(c as int, e2 as nat);
        let s2 = 2 * (scale as nat);
        lemma_pow_positive(a as int, e1 as nat);
        lemma_pow_positive(c as int, e2 as nat);
        lemma_pow_distributes(pa, pc, s2);
        lemma_pow_multiplies(a as int, e1 as nat, s2);
        lemma_pow_multiplies(c as int, e2 as nat, s2);
        assert(f1 == e1 * s2 && f2 == e2 * s2) by (nonlinear_arith)
            requires
                f1 == e1 * 2 * scale,
                f2 == e2 * 2 * scale,
                s2 == 2 * scale,
        ;
        assert(pa * pc >= 1) by (nonlinear_arith)
            requires
                pa >= 1,
                pc >= 1,
        ;
    }
    (m + 1) / 2
}

/// The least count in `max + 1..=bits` of units of `base`, after
/// `digits` digits, whose results reach `bits` bits (0 if there is none),
/// found by exact search.
fn exact_needed_length(base: u32, digits: u32, bits: u32, max: u32) -> (n: u64)
    requires
        base >= 2,
        bits <= EXACT_COUNT_BITS,
    ensures
        n == match least_length(base as nat, digits as nat, bits as nat, max as nat + 1, bits as nat) {
            Some(k) => k,
            None => 0,
        },
{
    let ghost target = least_length(base as nat, digits as nat, bits as nat, max as nat + 1, bits as nat);
    if bits <= max {
        return 0;
    }
    let mut x = one();
    let mut j: u32 = 0;
    proof {
        lemma_pow0(10);
        lemma_pow0(base as int);
    }
    while j < digits
        invariant
            j <= digits,
            limbs_value(x@) == pow(10, j as nat),
            x.len() <= j + 1,
        decreases digits - j,
    {
        proof {
            lemma_pow_succ(10, j as nat);
        }
        x = mul_small(&x, 10);
        j = j + 1;
    }
    let mut n: u32 = 0;
    proof {
        let pd = pow(10, digits as nat);
        assert(1 * pd == pd);
    }
    while n < max
        invariant
            n <= max,
            max < bits <= EXACT_COUNT_BITS,
                limbs_value(x@) == pow(base as int, n as nat) * pow(10, digits as nat),
            x.len() <= n + digits + 1,
        decreases max - n,
    {
        proof {
            lemma_pow_succ(base as int, n as nat);
            let pa = pow(base as int, n as nat);
            let pd = pow(10, digits as nat);
            assert((pa * pd) * base == (base * pa) * pd) by (nonlinear_arith);
        }
        x = mul_small(&x, base);
        n = n + 1;
    }
    while n < bits
        invariant
            max <= n <= bits,
            bits <= EXACT_COUNT_BITS,
                base >= 2,
            limbs_value(x@) == pow(base as int, n as nat) * pow(10, digits as nat),
            x.len() <= n + digits + 1,
            target == least_length(base as nat, digits as nat, bits as nat, n as nat + 1, bits as nat),
            target == least_length(base as nat, digits as nat, bits as nat, max as nat + 1, bits as nat),
        decreases bits - n,
    {
        proof {
            lemma_pow_succ(base as int, n as nat);
            let pa = pow(base as int, n as nat);
            let pd = pow(10, digits as nat);
            assert((pa * pd) * base == (base * pa) * pd) by (nonlinear_arith);
        }
        x = mul_small(&x, base);
        let ghost prev = n;
        n = n + 1;
        proof {
            assert(prev as nat + 1 == n as nat);
            let pa = pow(base as int, n as nat);
            let pd = pow(10, digits as nat);
            lemma_pow_positive(base as int, n as nat);
            lemma_pow_positive(10, digits as nat);
            assert(pa * pd >= 1) by (nonlinear_arith)
                requires
                    pa >= 1,
                    pd >= 1,
            ;
            lemma_reaches_iff_log2((pa * pd) as nat, bits as nat);
        }
        let m = log2_floor_limbs(&x);
        proof {
            let v = (pow(base as int, n as nat) * pow(10, digits as nat)) as nat;
            assert(limbs_value(x@) == v);
            assert(least_length(base as nat, digits as nat, bits as nat, n as nat, bits as nat) == (
            if reaches(v, bits as nat) {
                Some(n as nat)
            } else {
                least_length(base as nat, digits as nat, bits as nat, n as nat + 1, bits as nat)
            }));
        }
        if m >= bits as u64 {
            assert(target == Some(n as nat));
            return n as u64;
        }
    }
    0
}

/// The least count in `1..=max` of units of `base`, after `digits`
/// random digits, whose results reach `bits` bits; if even `max` units do
/// not, the message that names the count needed (from `unit_e18`, the
/// bits per unit in units of `10^-18`) and the maximum.
pub fn length_for_bits(base: u32, unit_e18: u64, digits: u32, bits: u32, max: u32, unit: &str) -> (r:
    Result<u32, String>)
    requires
        base >= 2,
        unit_e18 >= 1,
    ensures
        match r {
            Ok(n) => length_for_bits_spec(
                base as nat,
                unit_e18 as nat,
                digits as nat,
                bits as nat,
                max as nat,
                unit@,
            ) == Ok::<u32, Seq<char>>(n),
            Err(m) => length_for_bits_spec(
                base as nat,
                unit_e18 as nat,
                digits as nat,
                bits as nat,
                max as nat,
                unit@,
            ) == Err::<u32, Seq<char>>(m@),
        },
{
    let mut n: u64 = 1;
    while n <= max as u64
        invariant
            1 <= n <= max + 1,
            base >= 2,
            least_length(base as nat, digits as nat, bits as nat, 1, max as nat) == least_length(
                base as nat,
                digits as nat,
                bits as nat,
                n as nat,
                max as nat,
            ),
        decreases max + 1 - n,
    {
        let m = log2_floor_of_powers(base, n, 10, digits as u64);
        proof {
            let pa = pow(base as int, n as nat);
            let pc = pow(10, digits as nat);
            lemma_pow_positive(base as int, n as nat);
            lemma_pow_positive(10, digits as nat);
            assert(pa * pc >= 1) by (nonlinear_arith)
                requires
                    pa >= 1,
                    pc >= 1,
            ;
            lemma_reaches_iff_log2((pa * pc) as nat, bits as nat);
        }
        if m >= bits as u64 {
            return Ok(n as u32);
        }
        n = n + 1;
    }
    let k = rounded_log2_of_powers(10, digits as u64, 1, 0, 1);
    proof {
        lemma_pow0(1);
        let pd = pow(10, digits as nat);
        assert(pd * 1 == pd);
    }
    let shown: u64 = if bits as u64 >= k {
        bits as u64 - k
    } else {
        0
    };
    let num: u128 = (bits as u128) * 1000000000000000000;
    let sub: u128 = (digits as u128) * (DIGIT_BITS_E18 as u128);
    let rem: u128 = if num > sub {
        num - sub
    } else {
        0
    };
    let u = unit_e18 as u128;
    let est: u128 = if bits <= EXACT_COUNT_BITS {
        exact_needed_length(base, digits, bits, max) as u128
    } else {
        (rem + (u - 1)) / u
    };
    let mut msg = String::from_str("-b ");
    push_decimal(&mut msg, shown as u128);
    msg.append(" needs ");
    push_decimal(&mut msg, est);
    msg.append(" ");
    msg.append(unit);
    msg.append(", max is ");
    push_decimal(&mut msg, max as u128);
    Err(msg)
}

/// Entropy of a passphrase in tenths of a bit, rounded to the nearest.
pub fn phrase_entropy_tenths(words: u32, digits: u32) -> (k: u64)
    ensures
        k == rounded_log2(phrase_outcomes(words as nat, digits as nat), 10),
{
    rounded_log2_of_powers(7776, words as u64, 10, digits as u64, 10)
}

/// Entropy of a password in tenths of a bit, rounded to the nearest.
pub fn password_entropy_tenths(alphabet_len: u32, len: u32) -> (k: u64)
    requires
        alphabet_len >= 1,
    ensures
        k == rounded_log2(password_outcomes(alphabet_len as nat, len as nat), 10),
{
    let k = rounded_log2_of_powers(alphabet_len, len as u64, 1, 0, 10);
    proof {
        lemma_pow0(1);
        let p = pow(alphabet_len as int, len as nat);
        assert(p * 1 == p);
    }
    k
}

/// Describes the entropy of a passphrase of `words` words and `digits`
/// digits.
pub fn describe_phrase(words: u32, digits: u32) -> (r: String)
    ensures
        r@ == phrase_description(words as nat, digits as nat),
{
    let per_word = rounded_log2_of_powers(7776, 1, 1, 0, 10);
    proof {
        lemma_pow1(7776);
        lemma_pow0(1);
    }
    let total = phrase_entropy_tenths(words, digits);
    let mut s = String::from_str("entropy: ");
    push_decimal(&mut s, words as u128);
    s.append(" words x ");
    push_fixed_point(&mut s, per_word, 1);
    s.append(" bits + ");
    push_decimal(&mut s, digits as u128);
    s.append(" digits x 3.3 bits = ~");
    push_fixed_point(&mut s, total, 1);
    s.append(" bits");
    proof {
        assert(s@ =~= phrase_description(words as nat, digits as nat));
    }
    s
}

/// Describes the entropy of a password of `len` characters from an
/// alphabet of `alphabet_len`.
pub fn describe_password(alphabet_len: u32, len: u32) -> (r: String)
    requires
        alphabet_len >= 1,
    ensures
        r@ == password_description(alphabet_len as nat, len as nat),
{
    let per_char = rounded_log2_of_powers(alphabet_len, 1, 1, 0, 100);
    proof {
        lemma_pow1(alphabet_len as int);
        lemma_pow0(1);
        assert(alphabet_len * 1 == alphabet_len);
    }
    let total = password_entropy_tenths(alphabet_len, len);
    let mut s = String::from_str("entropy: ");
    push_decimal(&mut s, len as u128);
    s.append(" chars x ");
    push_fixed_point(&mut s, per_char, 2);
    s.append(" bits = ~");
    push_fixed_point(&mut s, total, 1);
    s.append(" bits");
    proof {
        assert(s@ =~= password_description(alphabet_len as nat, len as nat));
    }
    s
}

} // verus!
