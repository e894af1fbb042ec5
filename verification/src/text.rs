//! Character-level helpers: decimal rendering and parsing, comparison,
//! and the capitalisation of a word.

use vstd::arithmetic::power::*;
use vstd::prelude::*;
use vstd::string::*;

verus! {

/// The ASCII digit for `d < 10`.
pub open spec fn digit_char(d: nat) -> char {
    (48 + d) as char
}

/// Whether `c` is an ASCII decimal digit.
pub open spec fn is_digit(c: char) -> bool {
    '0' <= c && c <= '9'
}

/// Decimal rendering of `n`, without leading zeros.
pub open spec fn decimal(n: nat) -> Seq<char>
    decreases n,
{
    if n < 10 {
        seq![digit_char(n)]
    } else {
        decimal(n / 10).push(digit_char(n % 10))
    }
}

/// The last `width` decimal digits of `v`, with leading zeros: what
/// `{v:0width$}` prints for `v < 10^width`.
pub open spec fn zero_padded(v: nat, width: nat) -> Seq<char>
    decreases width,
{
    if width == 0 {
        Seq::empty()
    } else {
        zero_padded(v / 10, (width - 1) as nat).push(digit_char(v % 10))
    }
}

/// `k / 10^places` with `places` digits after the point: `k` read in
/// units of `10^-places`.
pub open spec fn fixed_point(k: nat, places: nat) -> Seq<char> {
    decimal(k / (pow(10, places) as nat)) + seq!['.'] + zero_padded(k % (pow(10, places) as nat), places)
}

/// The value of a string of decimal digits.
pub open spec fn digits_value(s: Seq<char>) -> nat
    decreases s.len(),
{
    if s.len() == 0 {
        0
    } else {
        digits_value(s.drop_last()) * 10 + ((s.last() as nat) - 48) as nat
    }
}

/// Whether every character of `t` is a decimal digit.
pub open spec fn all_digits(t: Seq<char>) -> bool {
    forall|i: int| 0 <= i < t.len() ==> is_digit(#[trigger] t[i])
}

/// `s` without one leading `+`, if it has one.
pub open spec fn unsigned_part(s: Seq<char>) -> Seq<char> {
    if s.len() > 0 && s[0] == '+' {
        s.drop_first()
    } else {
        s
    }
}

/// What `u32::from_str` accepts: an optional `+`, then at least one
/// decimal digit, of value at most `u32::MAX`.
pub open spec fn parse_u32_spec(s: Seq<char>) -> Option<u32> {
    let t = unsigned_part(s);
    if t.len() > 0 && all_digits(t) && digits_value(t) <= u32::MAX {
        Some(digits_value(t) as u32)
    } else {
        None
    }
}

/// ASCII upper case: `a`..`z` become `A`..`Z`, anything else stays.
pub open spec fn ascii_upper(c: char) -> char {
    if 'a' <= c && c <= 'z' {
        ((c as u32) - 32) as char
    } else {
        c
    }
}

/// A word with its first character in ASCII upper case.
pub open spec fn capitalized(w: Seq<char>) -> Seq<char> {
    if w.len() == 0 {
        w
    } else {
        seq![ascii_upper(w[0])] + w.drop_first()
    }
}

/// `decimal(n)` is a non-empty string of decimal digits whose value is `n`.
pub proof fn lemma_decimal_spells_value(n: nat)
    ensures
        decimal(n).len() >= 1,
        all_digits(decimal(n)),
        digits_value(decimal(n)) == n,
    decreases n,
{
    if n < 10 {
        let s = decimal(n);
        assert(s.drop_last() =~= Seq::<char>::empty());
        assert(digit_char(n) as nat == 48 + n);
        assert(is_digit(s[0]));
        assert(digits_value(Seq::<char>::empty()) == 0);
        assert(digits_value(s) == digits_value(s.drop_last()) * 10 + ((s.last() as nat) - 48) as nat);
    } else {
        lemma_decimal_spells_value(n / 10);
        let p = decimal(n / 10);
        let s = decimal(n);
        assert(s == p.push(digit_char(n % 10)));
        assert(s.drop_last() =~= p);
        assert(digit_char(n % 10) as nat == 48 + n % 10);
        assert forall|i: int| 0 <= i < s.len() implies is_digit(#[trigger] s[i]) by {
            if i < p.len() {
                assert(s[i] == p[i]);
            }
        }
        assert(digits_value(s) == digits_value(p) * 10 + n % 10);
        assert(n == (n / 10) * 10 + n % 10);
    }
}

/// Reading back a rendered number gives the number: for every `u32`,
/// `parse_u32` (and so `parse_num`) of its decimal rendering is that
/// number.
pub proof fn lemma_decimal_parses_back(n: u32)
    ensures
        parse_u32_spec(decimal(n as nat)) == Some(n),
{
    lemma_decimal_spells_value(n as nat);
    let s = decimal(n as nat);
    assert(is_digit(s[0]));
    assert(unsigned_part(s) == s);
}

/// `v` zero-padded to `width` is `width` decimal digits spelling
/// `v % 10^width`: for `v < 10^width`, exactly `v`.
pub proof fn lemma_zero_padded_spells_value(v: nat, width: nat)
    ensures
        zero_padded(v, width).len() == width,
        all_digits(zero_padded(v, width)),
        digits_value(zero_padded(v, width)) == v % (pow(10, width) as nat),
    decreases width,
{
    lemma_pow_positive(10, width);
    if width == 0 {
        lemma_pow0(10);
    } else {
        let w1 = (width - 1) as nat;
        lemma_zero_padded_spells_value(v / 10, w1);
        let s = zero_padded(v / 10, w1);
        let t = zero_padded(v, width);
        assert(t == s.push(digit_char(v % 10)));
        assert(t.drop_last() =~= s);
        assert forall|i: int| 0 <= i < t.len() implies is_digit(#[trigger] t[i]) by {
            if i < s.len() {
                assert(t[i] == s[i]);
            }
        }
        lemma_pow_positive(10, w1);
        lemma_pow_adds(10, 1, w1);
        lemma_pow1(10);
        vstd::arithmetic::div_mod::lemma_mod_breakdown(v as int, 10, pow(10, w1));
        assert(1 + w1 == width);
    }
}

/// Appends one character (`String::push`).
#[verifier::external_body]
pub fn push_char(s: &mut String, c: char)
    ensures
        final(s)@ == old(s)@.push(c),
{
    s.push(c);
}

/// The ASCII digit for `d`.
pub fn digit(d: u64) -> (c: char)
    requires
        d < 10,
    ensures
        c == digit_char(d as nat),
{
    let b: u8 = d as u8;
    (48u8 + b) as char
}

/// Appends the decimal rendering of `n`.
pub fn push_decimal(s: &mut String, n: u128)
    ensures
        final(s)@ == old(s)@ + decimal(n as nat),
    decreases n,
{
    if n >= 10 {
        push_decimal(s, n / 10);
    }
    push_char(s, digit((n % 10) as u64));
    proof {
        assert(final(s)@ =~= old(s)@ + decimal(n as nat));
    }
}

/// Appends the last `width` decimal digits of `v`, zero-padded.
pub fn push_zero_padded(s: &mut String, v: u64, width: u32)
    ensures
        final(s)@ == old(s)@ + zero_padded(v as nat, width as nat),
    decreases width,
{
    if width > 0 {
        push_zero_padded(s, v / 10, width - 1);
        push_char(s, digit(v % 10));
        proof {
            assert(final(s)@ =~= old(s)@ + zero_padded(v as nat, width as nat));
        }
    } else {
        proof {
            assert(final(s)@ =~= old(s)@ + zero_padded(v as nat, width as nat));
        }
    }
}

proof fn lemma_pow10_19()
    ensures
        pow(10, 19) == 10000000000000000000,
{
    reveal_with_fuel(pow, 20);
}

/// `10^e`.
pub fn pow10(e: u32) -> (r: u64)
    requires
        e <= 19,
    ensures
        r == pow(10, e as nat),
{
    let mut r: u64 = 1;
    let mut i: u32 = 0;
    proof {
        lemma_pow0(10);
    }
    while i < e
        invariant
            i <= e,
            e <= 19,
            r == pow(10, i as nat),
        decreases e - i,
    {
        proof {
            lemma_pow_adds(10, i as nat, 1);
            lemma_pow1(10);
            lemma_pow_increases(10, (i + 1) as nat, 19);
            lemma_pow10_19();
        }
        r = r * 10;
        i = i + 1;
    }
    r
}

/// Appends `k` read in units of `10^-places`, e.g. `129` with one place
/// as `12.9`.
pub fn push_fixed_point(s: &mut String, k: u64, places: u32)
    requires
        places <= 19,
    ensures
        final(s)@ == old(s)@ + fixed_point(k as nat, places as nat),
{
    let unit = pow10(places);
    proof {
        lemma_pow_positive(10, places as nat);
    }
    push_decimal(s, (k / unit) as u128);
    push_char(s, '.');
    push_zero_padded(s, k % unit, places);
    proof {
        assert(final(s)@ =~= old(s)@ + fixed_point(k as nat, places as nat));
    }
}

/// Whether two strings hold the same characters.
pub fn str_eq(a: &str, b: &str) -> (r: bool)
    ensures
        r == (a@ == b@),
{
    let n = a.unicode_len();
    if n != b.unicode_len() {
        return false;
    }
    let mut i: usize = 0;
    while i < n
        invariant
            n == a@.len(),
            n == b@.len(),
            i <= n,
            forall|j: int| 0 <= j < i ==> a@[j] == b@[j],
        decreases n - i,
    {
        if a.get_char(i) != b.get_char(i) {
            return false;
        }
        i = i + 1;
    }
    proof {
        assert(a@ =~= b@);
    }
    true
}

proof fn lemma_digits_value_grows(t: Seq<char>, i: int)
    requires
        0 <= i < t.len(),
        is_digit(t[i]),
    ensures
        digits_value(t.take(i + 1)) == digits_value(t.take(i)) * 10 + ((t[i] as nat) - 48) as nat,
        digits_value(t.take(i + 1)) >= digits_value(t.take(i)) * 10,
{
    assert(t.take(i + 1).drop_last() =~= t.take(i));
}

/// Reads a `u32` the way `str::parse::<u32>` does.
pub fn parse_u32(s: &str) -> (r: Option<u32>)
    ensures
        r == parse_u32_spec(s@),
{
    let n = s.unicode_len();
    let start: usize = if n > 0 && s.get_char(0) == '+' {
        1
    } else {
        0
    };
    let ghost t = unsigned_part(s@);
    if start == n {
        return None;
    }
    let mut acc: u32 = 0;
    let mut over = false;
    let mut i: usize = start;
    proof {
        assert(t.take(0) =~= Seq::<char>::empty());
    }
    while i < n
        invariant
            n == s@.len(),
            start <= i <= n,
            start == 0 || start == 1,
            t =~= s@.subrange(start as int, n as int),
            t == unsigned_part(s@),
            forall|j: int| 0 <= j < i - start ==> is_digit(#[trigger] t[j]),
            !over ==> acc == digits_value(t.take(i - start)),
            over ==> digits_value(t.take(i - start)) > u32::MAX,
        decreases n - i,
    {
        let c = s.get_char(i);
        if !('0' <= c && c <= '9') {
            proof {
                assert(!is_digit(t[i - start]));
            }
            return None;
        }
        let d: u32 = ((c as u32) - 48) as u32;
        proof {
            assert(t[i - start] == c);
            lemma_digits_value_grows(t, i - start);
        }
        if !over {
            match acc.checked_mul(10) {
                Some(m) => match m.checked_add(d) {
                    Some(v) => {
                        acc = v;
                    },
                    None => {
                        over = true;
                    },
                },
                None => {
                    over = true;
                },
            }
        }
        i = i + 1;
    }
    proof {
        assert(t.take(n - start) =~= t);
    }
    if over {
        None
    } else {
        Some(acc)
    }
}

/// ASCII upper case of one character.
pub fn to_ascii_upper(c: char) -> (r: char)
    ensures
        r == ascii_upper(c),
{
    if 'a' <= c && c <= 'z' {
        let b: u8 = ((c as u32) - 32) as u8;
        b as char
    } else {
        c
    }
}

/// The word with its first letter in upper case (ASCII only); the rest
/// is left as it is.
pub fn capitalize(word: &str) -> (r: String)
    ensures
        r@ == capitalized(word@),
{
    let n = word.unicode_len();
    if n == 0 {
        let e = String::new();
        proof {
            assert(e@ =~= word@);
        }
        return e;
    }
    let mut r = String::new();
    push_char(&mut r, to_ascii_upper(word.get_char(0)));
    r.append(word.substring_char(1, n));
    proof {
        assert(r@ =~= capitalized(word@));
    }
    r
}

/// Capitalising upper-cases a lowercase ASCII first letter and nothing
/// else: for every letter `c` in `a..=z` and any rest `w`, `c + w` becomes
/// the letter 32 code points lower (in `A..=Z`) followed by `w` unchanged;
/// a word that starts with any other character is left as it is.
pub proof fn lemma_capitalize_first_letter(c: char, w: Seq<char>)
    ensures
        ('a' <= c && c <= 'z') ==> {
            let r = capitalized(seq![c] + w);
            &&& r.len() == w.len() + 1
            &&& r[0] as u32 == c as u32 - 32
            &&& 'A' <= r[0] && r[0] <= 'Z'
            &&& r.drop_first() == w
        },
        !('a' <= c && c <= 'z') ==> capitalized(seq![c] + w) == seq![c] + w,
{
    let cw = seq![c] + w;
    assert(cw[0] == c);
    assert(cw.drop_first() =~= w);
    if 'a' <= c && c <= 'z' {
        let r = capitalized(cw);
        assert(r.drop_first() =~= w);
    } else {
        assert(capitalized(cw) =~= cw);
    }
}

} // verus!
