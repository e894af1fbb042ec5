//! Drawing passphrases and passwords from the operating system's random
//! source, with rejection sampling against modulo bias.

use crate::opts::{alphabet_len_spec, Kind, KindView, Opts};
use crate::entropy::EXPECTED_WORDS;
use crate::random::OsRandom;
use crate::text::{
    capitalize, capitalized, decimal, pow10, push_char, push_decimal, push_zero_padded, zero_padded,
};
use vstd::arithmetic::power::*;
use vstd::prelude::*;
use vstd::string::*;

verus! {

/// Declares `getrandom::Error`, the error of the random source.
#[verifier::external_type_specification]
#[verifier::external_body]
pub struct ExRandomError(getrandom::Error);

/// Draws before `uniform` gives up on getting an unbiased value.
pub const MAX_DRAWS: u32 = 64;

/// The 62 alphanumerics `A-Z`, `a-z`, `0-9`, as bytes.
pub open spec fn alnum_spec() -> Seq<u8> {
    Seq::new(
        62,
        |i: int|
            if i < 26 {
                (65 + i) as u8
            } else if i < 52 {
                (71 + i) as u8
            } else {
                (i - 4) as u8
            },
    )
}

/// The 26 symbols `!@#$%^&*()-_=+[]{};:,.<>?/`, as bytes.
pub open spec fn symbols_spec() -> Seq<u8> {
    seq![
        33u8,
        64,
        35,
        36,
        37,
        94,
        38,
        42,
        40,
        41,
        45,
        95,
        61,
        43,
        91,
        93,
        123,
        125,
        59,
        58,
        44,
        46,
        60,
        62,
        63,
        47,
    ]
}

/// The password alphabet: alphanumerics, then the symbols if asked for.
pub open spec fn alphabet_spec(symbols: bool) -> Seq<u8> {
    if symbols {
        alnum_spec() + symbols_spec()
    } else {
        alnum_spec()
    }
}

/// Whether `b` is a printable ASCII character other than space.
pub open spec fn is_ascii_graphic(b: u8) -> bool {
    33 <= b && b <= 126
}

/// The largest multiple of `n` that a `u64` holds: draws below it are
/// accepted.
pub open spec fn accept_limit(n: u64) -> nat {
    ((u64::MAX as nat) / (n as nat)) * (n as nat)
}

/// A word as it appears in a passphrase.
pub open spec fn styled(word: Seq<char>, cap: bool) -> Seq<char> {
    if cap {
        capitalized(word)
    } else {
        word
    }
}

/// The words of `list` at `picks`, styled and joined by `sep`.
pub open spec fn joined_words(list: Seq<Seq<char>>, picks: Seq<int>, sep: Seq<char>, cap: bool) -> Seq<
    char,
>
    decreases picks.len(),
{
    if picks.len() == 0 {
        Seq::empty()
    } else if picks.len() == 1 {
        styled(list[picks[0]], cap)
    } else {
        joined_words(list, picks.drop_last(), sep, cap) + sep + styled(list[picks.last()], cap)
    }
}

/// Whether `picks` holds `count` indices below `bound`.
pub open spec fn valid_picks(picks: Seq<int>, count: nat, bound: nat) -> bool {
    &&& picks.len() == count
    &&& forall|i: int| 0 <= i < picks.len() ==> 0 <= #[trigger] picks[i] < bound
}

/// The passphrase made of the words at `picks` and the number `v` as
/// `digits` zero-padded digits.
pub open spec fn passphrase_of(
    list: Seq<Seq<char>>,
    picks: Seq<int>,
    sep: Seq<char>,
    cap: bool,
    digits: nat,
    v: nat,
) -> Seq<char> {
    joined_words(list, picks, sep, cap) + zero_padded(v, digits)
}

/// Whether `pw` is a passphrase of `count` words of `list`, joined by
/// `sep` (capitalised if `cap`), followed by `digits` decimal digits.
pub open spec fn is_passphrase(
    pw: Seq<char>,
    list: Seq<Seq<char>>,
    count: nat,
    sep: Seq<char>,
    cap: bool,
    digits: nat,
) -> bool {
    exists|picks: Seq<int>, v: nat|
        #![trigger passphrase_of(list, picks, sep, cap, digits, v)]
        valid_picks(picks, count, list.len()) && v < pow(10, digits) && pw == passphrase_of(
            list,
            picks,
            sep,
            cap,
            digits,
            v,
        )
}

/// The characters of `alpha` at `picks`.
pub open spec fn chars_at(alpha: Seq<u8>, picks: Seq<int>) -> Seq<char> {
    Seq::new(picks.len(), |i: int| alpha[picks[i]] as char)
}

/// Whether `pw` is `len` characters, each drawn from `alpha`.
pub open spec fn is_password(pw: Seq<char>, alpha: Seq<u8>, len: nat) -> bool {
    exists|picks: Seq<int>|
        #![trigger chars_at(alpha, picks)]
        valid_picks(picks, len, alpha.len()) && pw == chars_at(alpha, picks)
}

/// The views of a list of words.
pub open spec fn word_views(words: Seq<&str>) -> Seq<Seq<char>> {
    words.map_values(|w: &str| w@)
}

/// The password alphabet: `A-Za-z0-9`, plus `!@#$%^&*()-_=+[]{};:,.<>?/`
/// with `symbols`.
pub fn alphabet(symbols: bool) -> (r: Vec<u8>)
    ensures
        r@ == alphabet_spec(symbols),
        r.len() == alphabet_len_spec(symbols),
{
    let mut r: Vec<u8> = Vec::new();
    let mut i: u8 = 0;
    while i < 62
        invariant
            i <= 62,
            r@ =~= alnum_spec().take(i as int),
        decreases 62 - i,
    {
        let b: u8 = if i < 26 {
            65 + i
        } else if i < 52 {
            71 + i
        } else {
            i - 4
        };
        r.push(b);
        i = i + 1;
    }
    proof {
        assert(alnum_spec().take(62) =~= alnum_spec());
    }
    if symbols {
        let sym: Vec<u8> = vec![
            33u8,
            64,
            35,
            36,
            37,
            94,
            38,
            42,
            40,
            41,
            45,
            95,
            61,
            43,
            91,
            93,
            123,
            125,
            59,
            58,
            44,
            46,
            60,
            62,
            63,
            47,
        ];
        let mut j: usize = 0;
        while j < sym.len()
            invariant
                sym@ == symbols_spec(),
                j <= sym.len(),
                r@ =~= alnum_spec() + symbols_spec().take(j as int),
            decreases sym.len() - j,
        {
            r.push(sym[j]);
            j = j + 1;
        }
        proof {
            assert(symbols_spec().take(26) =~= symbols_spec());
        }
    }
    r
}

/// Both alphabets are as documented: 62 and 88 characters, no character
/// twice, every one printable and not a space.
pub proof fn lemma_alphabets_are_sound(symbols: bool)
    ensures
        alphabet_spec(symbols).len() == alphabet_len_spec(symbols),
        forall|i: int, j: int|
            0 <= i < j < alphabet_spec(symbols).len() ==> alphabet_spec(symbols)[i]
                != alphabet_spec(symbols)[j],
        forall|i: int|
            0 <= i < alphabet_spec(symbols).len() ==> is_ascii_graphic(
                #[trigger] alphabet_spec(symbols)[i],
            ),
{
    let a = alnum_spec();
    let s = symbols_spec();
    assert forall|i: int| 0 <= i < 26 implies (#[trigger] s[i] < 48 || (58 <= s[i] && s[i] < 65)
        || (91 <= s[i] && s[i] < 97) || 123 <= s[i]) && is_ascii_graphic(s[i]) by {}
    assert forall|i: int, j: int| 0 <= i < j < 26 implies #[trigger] s[i] != #[trigger] s[j] by {}
    let t = alphabet_spec(symbols);
    assert forall|i: int, j: int| 0 <= i < j < t.len() implies t[i] != t[j] by {
        if symbols && j >= 62 {
            if i >= 62 {
                assert(t[i] == s[i - 62]);
                assert(t[j] == s[j - 62]);
            } else {
                assert(t[j] == s[j - 62]);
            }
        }
    }
    assert forall|i: int| 0 <= i < t.len() implies is_ascii_graphic(#[trigger] t[i]) by {
        if symbols && i >= 62 {
            assert(t[i] == s[i - 62]);
        }
    }
}

/// `getrandom::Error::UNEXPECTED`: the error `uniform` reports when every
/// one of its draws was rejected.
#[verifier::external_body]
fn unexpected_error() -> getrandom::Error {
    getrandom::Error::UNEXPECTED
}

/// What rejection sampling makes of the draw `r` for a value below `n`:
/// `r % n` if `r` lies below the largest multiple of `n` that a `u64`
/// holds, else nothing (the draw is rejected).
pub fn accept_draw(r: u64, n: u64) -> (v: Option<u64>)
    requires
        n > 0,
    ensures
        v == (if (r as nat) < accept_limit(n) {
            Some(r % n)
        } else {
            None::<u64>
        }),
{
    proof {
        vstd::arithmetic::div_mod::lemma_fundamental_div_mod(u64::MAX as int, n as int);
        let q = (u64::MAX as int) / (n as int);
        assert(q * n <= u64::MAX) by (nonlinear_arith)
            requires
                u64::MAX == n * q + (u64::MAX as int) % (n as int),
                (u64::MAX as int) % (n as int) >= 0,
        ;
    }
    let limit = u64::MAX / n * n;
    if r < limit {
        Some(r % n)
    } else {
        None
    }
}

/// Rejection sampling has no modulo bias: whether a draw is accepted
/// depends only on `r / n`, never on `r % n`, and the accepted draws are
/// exactly the first `(u64::MAX / n)` whole runs of `n` values, so every
/// value below `n` comes from the same number of accepted draws.
pub proof fn lemma_acceptance_ignores_residue(n: u64, r: u64)
    requires
        n > 0,
    ensures
        ((r as nat) < accept_limit(n)) == ((r as nat) / (n as nat) < (u64::MAX as nat) / (n as nat)),
        accept_limit(n) % (n as nat) == 0,
        accept_limit(n) <= u64::MAX,
        accept_limit(n) + n > u64::MAX,
{
    let q = (u64::MAX as nat) / (n as nat);
    let nn = n as nat;
    let rr = r as nat;
    assert(accept_limit(n) % nn == 0) by (nonlinear_arith)
        requires
            nn > 0,
            accept_limit(n) == q * nn,
    {
        vstd::arithmetic::div_mod::lemma_mod_multiples_basic(q as int, nn as int);
    }
    vstd::arithmetic::div_mod::lemma_fundamental_div_mod(u64::MAX as int, nn as int);
    vstd::arithmetic::div_mod::lemma_fundamental_div_mod(rr as int, nn as int);
    assert((rr < q * nn) == (rr / nn < q)) by (nonlinear_arith)
        requires
            nn > 0,
            rr == nn * (rr / nn) + rr % nn,
            0 <= rr % nn < nn,
    ;
}

/// The draws that rejection sampling turns into the value `v` below `n`:
/// those below the largest multiple of `n` that a `u64` holds whose
/// remainder is `v`.
pub open spec fn draws_giving(n: u64, v: u64) -> Set<int> {
    Set::new(|r: int| 0 <= r < accept_limit(n) && r % (n as int) == v)
}

/// Every value below `n` is given by equally many draws: the accepted
/// draws that give `v` are exactly `q * n + v` for `q` below
/// `u64::MAX / n`, so there are `u64::MAX / n` of them, whatever `v` is.
pub proof fn lemma_each_value_equally_often(n: u64, v: u64)
    requires
        n > 0,
        v < n,
    ensures
        draws_giving(n, v) == vstd::set_lib::set_int_range(
            0,
            (u64::MAX as int) / (n as int),
        ).map(|q: int| q * (n as int) + v),
        draws_giving(n, v).finite(),
        draws_giving(n, v).len() == (u64::MAX as nat) / (n as nat),
{
    let nn = n as int;
    let q_max = (u64::MAX as int) / nn;
    let f = |q: int| q * nn + v;
    let dom = vstd::set_lib::set_int_range(0, q_max);
    let img = dom.map(f);
    assert forall|r: int| #[trigger] draws_giving(n, v).contains(r) implies img.contains(r) by {
        vstd::arithmetic::div_mod::lemma_fundamental_div_mod(r, nn);
        let q = r / nn;
        assert(r == q * nn + v);
        assert(0 <= q < q_max) by (nonlinear_arith)
            requires
                r == q * nn + v,
                0 <= r < q_max * nn,
                0 <= v < nn,
        ;
        assert(dom.contains(q));
        assert(f(q) == r);
    }
    assert forall|r: int| #[trigger] img.contains(r) implies draws_giving(n, v).contains(r) by {
        let q = choose|q: int| dom.contains(q) && f(q) == r;
        vstd::arithmetic::div_mod::lemma_fundamental_div_mod_converse(r, nn, q, v as int);
        assert(0 <= r < q_max * nn) by (nonlinear_arith)
            requires
                r == q * nn + v,
                0 <= q < q_max,
                0 <= v < nn,
        ;
    }
    assert(draws_giving(n, v) =~= img);
    assert(vstd::relations::injective_on(f, dom)) by {
        assert forall|a: int, b: int|
            dom.contains(a) && dom.contains(b) && #[trigger] f(a) == #[trigger] f(b) implies a
            == b by {
            assert(a == b) by (nonlinear_arith)
                requires
                    a * nn + v == b * nn + v,
                    nn > 0,
            ;
        }
    }
    vstd::set_lib::lemma_int_range(0, q_max);
    vstd::set_lib::lemma_map_size(dom, img, f);
}

/// What one reply of the random source leads `uniform` to.
pub enum Draw {
    /// An accepted draw: the value below `n`.
    Value(u64),
    /// The random source failed with this error.
    Failed(getrandom::Error),
    /// The draw was rejected: draw again.
    Again,
    /// The last allowed draw was rejected too.
    GiveUp,
}

/// The decision on the reply to draw number `tries` (counting from 0):
/// a source error is passed on, an accepted draw `r` gives `r % n`, and a
/// rejected draw leads to another draw unless it was draw number
/// `MAX_DRAWS - 1`.
pub open spec fn draw_step(reply: Result<u64, getrandom::Error>, n: u64, tries: u32) -> Draw {
    match reply {
        Err(e) => Draw::Failed(e),
        Ok(r) => if (r as nat) < accept_limit(n) {
            Draw::Value(r % n)
        } else if tries + 1 < MAX_DRAWS {
            Draw::Again
        } else {
            Draw::GiveUp
        },
    }
}

/// Decides what the reply to draw number `tries` leads to.
pub fn next_draw(reply: Result<u64, getrandom::Error>, n: u64, tries: u32) -> (s: Draw)
    requires
        n > 0,
        tries < MAX_DRAWS,
    ensures
        s == draw_step(reply, n, tries),
{
    match reply {
        Err(e) => Draw::Failed(e),
        Ok(r) => match accept_draw(r, n) {
            Some(v) => Draw::Value(v),
            None => if tries + 1 < MAX_DRAWS {
                Draw::Again
            } else {
                Draw::GiveUp
            },
        },
    }
}

/// A draw `r` gives the value `v` exactly when `r` is one of the draws
/// that give `v`, whichever draw it is: the decision on a reply uses the
/// reply as it came, all 64 bits of it.
pub proof fn lemma_draw_gives_its_remainder(n: u64, r: u64, tries: u32, v: u64)
    requires
        n > 0,
        v < n,
    ensures
        (draw_step(Ok(r), n, tries) == Draw::Value(v)) <==> draws_giving(n, v).contains(r as int),
{
}

/// Whether `reply` is a draw that rejection sampling keeps for a value
/// below `n`.
pub open spec fn accepted(reply: Result<u64, getrandom::Error>, n: u64) -> bool {
    reply matches Ok(x) && (x as nat) < accept_limit(n)
}

/// Whether `reply` is a draw that rejection sampling throws away.
pub open spec fn rejected(reply: Result<u64, getrandom::Error>, n: u64) -> bool {
    reply matches Ok(x) && (x as nat) >= accept_limit(n)
}

/// Whether every one of `replies` is a draw, none an error.
pub open spec fn all_drawn(replies: Seq<Result<u64, getrandom::Error>>) -> bool {
    forall|i: int| 0 <= i < replies.len() ==> #[trigger] replies[i] is Ok
}

/// The values below `n` that the accepted draws among `replies` give, in
/// the order of the draws: `x % n` for each accepted draw `x`.
pub open spec fn accepted_values(replies: Seq<Result<u64, getrandom::Error>>, n: u64) -> Seq<u64>
    decreases replies.len(),
{
    if replies.len() == 0 {
        Seq::empty()
    } else {
        let earlier = accepted_values(replies.drop_last(), n);
        match replies.last() {
            Ok(x) => if (x as nat) < accept_limit(n) {
                earlier.push(x % n)
            } else {
                earlier
            },
            Err(_) => earlier,
        }
    }
}

/// Whether `replies` are the replies of the random source that one
/// rejection-sampled draw of a value below `n` read, and `r` is what it
/// gave back: at most `MAX_DRAWS` replies, all but the last rejected
/// draws; the last one is an accepted draw `x`, which gives `x % n`, or
/// an error, which is passed on, or, as reply number `MAX_DRAWS`, a
/// rejected draw again, which gives an error.
pub open spec fn uniform_outcome(
    replies: Seq<Result<u64, getrandom::Error>>,
    n: u64,
    r: Result<u64, getrandom::Error>,
) -> bool {
    &&& 1 <= replies.len() <= MAX_DRAWS
    &&& forall|i: int| 0 <= i < replies.len() - 1 ==> rejected(#[trigger] replies[i], n)
    &&& match replies.last() {
        Err(e) => r == Err::<u64, getrandom::Error>(e),
        Ok(x) => if (x as nat) < accept_limit(n) {
            r == Ok::<u64, getrandom::Error>(x % n)
        } else {
            replies.len() == MAX_DRAWS && r is Err
        },
    }
}

/// The accepted values of two runs of replies are those of the first run
/// followed by those of the second.
pub proof fn lemma_accepted_values_concat(
    a: Seq<Result<u64, getrandom::Error>>,
    b: Seq<Result<u64, getrandom::Error>>,
    n: u64,
)
    ensures
        accepted_values(a + b, n) == accepted_values(a, n) + accepted_values(b, n),
    decreases b.len(),
{
    if b.len() == 0 {
        assert(a + b =~= a);
        assert(accepted_values(b, n) =~= Seq::<u64>::empty());
        assert(accepted_values(a, n) + accepted_values(b, n) =~= accepted_values(a, n));
    } else {
        lemma_accepted_values_concat(a, b.drop_last(), n);
        assert((a + b).drop_last() =~= a + b.drop_last());
        assert((a + b).last() == b.last());
        let ea = accepted_values(a, n);
        let eb = accepted_values(b.drop_last(), n);
        match b.last() {
            Ok(x) => {
                if (x as nat) < accept_limit(n) {
                    assert((ea + eb).push(x % n) =~= ea + eb.push(x % n));
                }
            },
            Err(_) => {},
        }
    }
}

/// Every accepted value is below `n`.
pub proof fn lemma_accepted_values_below(replies: Seq<Result<u64, getrandom::Error>>, n: u64)
    requires
        n > 0,
    ensures
        forall|i: int|
            0 <= i < accepted_values(replies, n).len() ==> #[trigger] accepted_values(replies, n)[i]
                < n,
    decreases replies.len(),
{
    if replies.len() > 0 {
        lemma_accepted_values_below(replies.drop_last(), n);
        let earlier = accepted_values(replies.drop_last(), n);
        let all = accepted_values(replies, n);
        assert forall|i: int| 0 <= i < all.len() implies #[trigger] all[i] < n by {
            if i < earlier.len() {
                assert(all[i] == earlier[i]);
            }
        }
    }
}

/// Rejected draws give no value.
proof fn lemma_rejected_give_nothing(replies: Seq<Result<u64, getrandom::Error>>, n: u64)
    requires
        forall|i: int| 0 <= i < replies.len() ==> rejected(#[trigger] replies[i], n),
    ensures
        accepted_values(replies, n) == Seq::<u64>::empty(),
    decreases replies.len(),
{
    if replies.len() > 0 {
        let p = replies.drop_last();
        assert forall|i: int| 0 <= i < p.len() implies rejected(#[trigger] p[i], n) by {
            assert(p[i] == replies[i]);
        }
        lemma_rejected_give_nothing(p, n);
        assert(rejected(replies[replies.len() - 1], n));
    }
}

/// A draw that gives a value is made of replies that are all draws, and
/// its one accepted draw is the last reply, whose value it gives.
pub proof fn lemma_uniform_value_is_accepted_draw(
    replies: Seq<Result<u64, getrandom::Error>>,
    n: u64,
    v: u64,
)
    requires
        uniform_outcome(replies, n, Ok(v)),
    ensures
        all_drawn(replies),
        accepted(replies.last(), n),
        accepted_values(replies, n) == seq![v],
{
    let p = replies.drop_last();
    assert forall|i: int| 0 <= i < p.len() implies rejected(#[trigger] p[i], n) by {
        assert(p[i] == replies[i]);
    }
    lemma_rejected_give_nothing(p, n);
    assert(accepted_values(replies, n) =~= seq![v]);
    assert forall|i: int| 0 <= i < replies.len() implies #[trigger] replies[i] is Ok by {
        if i < replies.len() - 1 {
            assert(rejected(replies[i], n));
        }
    }
}

/// A value below `n` from the random source `src`, drawn by rejection
/// sampling: each reply is decided by `next_draw`, so the first accepted
/// draw `x` gives `x % n`, draws at or above the largest multiple of `n`
/// are thrown away, and an error of the source is passed on. After
/// `MAX_DRAWS` rejected draws in a row it reports
/// `getrandom::Error::UNEXPECTED`. The replies it reads are added to the
/// record of `src`, and what it gives back is stated over them.
pub fn uniform_from(src: &mut OsRandom, n: u64) -> (r: Result<u64, getrandom::Error>)
    requires
        n > 0,
    ensures
        old(src).replies().is_prefix_of(final(src).replies()),
        uniform_outcome(final(src).replies().skip(old(src).replies().len() as int), n, r),
        r matches Ok(v) ==> v < n,
{
    let ghost start = src.replies();
    let mut tries: u32 = 0;
    loop
        invariant
            n > 0,
            tries < MAX_DRAWS,
            start == old(src).replies(),
            start.is_prefix_of(src.replies()),
            src.replies().len() == start.len() + tries,
            forall|i: int|
                start.len() <= i < src.replies().len() ==> rejected(#[trigger] src.replies()[i], n),
        decreases MAX_DRAWS - tries,
    {
        let reply = src.next_u64();
        let ghost all = src.replies();
        let ghost d = all.skip(start.len() as int);
        proof {
            assert(start.is_prefix_of(all)) by {
                assert(start =~= all.subrange(0, start.len() as int));
            }
            assert(d.len() == tries + 1);
            assert(d.last() == reply);
            assert forall|i: int| 0 <= i < d.len() - 1 implies rejected(#[trigger] d[i], n) by {
                assert(d[i] == all[start.len() + i]);
            }
        }
        match next_draw(reply, n, tries) {
            Draw::Value(v) => {
                return Ok(v);
            },
            Draw::Failed(e) => {
                return Err(e);
            },
            Draw::GiveUp => {
                return Err(unexpected_error());
            },
            Draw::Again => {
                tries = tries + 1;
            },
        }
    }
}

/// A value below `n` from the operating system's random source, drawn by
/// rejection sampling as `uniform_from` states it.
pub fn uniform(n: u64) -> (r: Result<u64, getrandom::Error>)
    requires
        n > 0,
    ensures
        r matches Ok(v) ==> v < n,
{
    let mut src = OsRandom::new();
    uniform_from(&mut src, n)
}

/// Indices as integers.
pub open spec fn index_seq(picks: Seq<u64>) -> Seq<int> {
    picks.map_values(|x: u64| x as int)
}

/// The passphrase of the words of `words` at `picks`, joined by `sep`
/// (capitalised if `cap`), followed by `v` as `digits` zero-padded digits.
pub fn assemble_passphrase(
    words: &[&str],
    picks: &Vec<u64>,
    sep: &str,
    cap: bool,
    digits: u32,
    v: u64,
) -> (r: String)
    requires
        forall|i: int| 0 <= i < picks.len() ==> #[trigger] picks@[i] < words.len(),
    ensures
        r@ == passphrase_of(word_views(words@), index_seq(picks@), sep@, cap, digits as nat, v as nat),
{
    let ghost list = word_views(words@);
    let mut pw = String::new();
    let mut k: usize = 0;
    while k < picks.len()
        invariant
            k <= picks.len(),
            list == word_views(words@),
            forall|i: int| 0 <= i < picks.len() ==> #[trigger] picks@[i] < words.len(),
            pw@ == joined_words(list, index_seq(picks@).take(k as int), sep@, cap),
        decreases picks.len() - k,
    {
        if k > 0 {
            pw.append(sep);
        }
        let idx = picks[k];
        let word = words[idx as usize];
        if cap {
            let w = capitalize(word);
            pw.append(w.as_str());
        } else {
            pw.append(word);
        }
        proof {
            let taken = index_seq(picks@).take(k as int + 1);
            assert(taken.drop_last() =~= index_seq(picks@).take(k as int));
            assert(taken.last() == idx as int);
            assert(list[idx as int] == word@);
            assert(pw@ =~= joined_words(list, taken, sep@, cap));
        }
        k = k + 1;
    }
    proof {
        assert(index_seq(picks@).take(picks.len() as int) =~= index_seq(picks@));
    }
    push_zero_padded(&mut pw, v, digits);
    pw
}

/// The password of the characters of `alpha` at `picks`.
pub fn assemble_password(alpha: &Vec<u8>, picks: &Vec<u64>) -> (r: String)
    requires
        forall|i: int| 0 <= i < picks.len() ==> #[trigger] picks@[i] < alpha.len(),
    ensures
        r@ == chars_at(alpha@, index_seq(picks@)),
{
    let mut pw = String::new();
    let mut k: usize = 0;
    while k < picks.len()
        invariant
            k <= picks.len(),
            forall|i: int| 0 <= i < picks.len() ==> #[trigger] picks@[i] < alpha.len(),
            pw@ == chars_at(alpha@, index_seq(picks@).take(k as int)),
        decreases picks.len() - k,
    {
        push_char(&mut pw, alpha[picks[k] as usize] as char);
        proof {
            assert(pw@ =~= chars_at(alpha@, index_seq(picks@).take(k as int + 1)));
        }
        k = k + 1;
    }
    proof {
        assert(index_seq(picks@).take(picks.len() as int) =~= index_seq(picks@));
    }
    pw
}

/// Whether what `kind` asks for takes no random draw at all.
pub open spec fn needs_no_draw(kind: KindView) -> bool {
    match kind {
        KindView::Passphrase { words, digits, .. } => words == 0 && digits == 0,
        KindView::Password { len, .. } => len == 0,
    }
}

/// A record that starts with another starts with what that one starts
/// with.
proof fn lemma_prefix_trans<T>(a: Seq<T>, b: Seq<T>, c: Seq<T>)
    requires
        a.is_prefix_of(b),
        b.is_prefix_of(c),
    ensures
        a.is_prefix_of(c),
{
    assert(a =~= c.subrange(0, a.len() as int)) by {
        assert forall|i: int| 0 <= i < a.len() implies a[i] == c[i] by {
            assert(a[i] == b[i]);
            assert(b[i] == c[i]);
        }
    }
}

/// What a record that starts with `a` holds after `a`, with what was added
/// later split off.
proof fn lemma_skip_split<T>(a: Seq<T>, b: Seq<T>, c: Seq<T>)
    requires
        a.is_prefix_of(b),
        b.is_prefix_of(c),
    ensures
        c.skip(a.len() as int) =~= b.skip(a.len() as int) + c.skip(b.len() as int),
{
    assert forall|i: int| 0 <= i < b.len() implies b[i] == c[i] by {}
}

/// `count` separate uniform draws below `n` from `src`, one call of
/// `uniform_from` for each, in order: the values are those of the accepted
/// draws among the replies read. No draw, and so no failure, when `count`
/// is 0.
fn draw_indices(src: &mut OsRandom, count: u32, n: u64) -> (r: Result<Vec<u64>, getrandom::Error>)
    requires
        count > 0 ==> n > 0,
    ensures
        old(src).replies().is_prefix_of(final(src).replies()),
        count == 0 ==> (r is Ok && final(src).replies() == old(src).replies()),
        r matches Ok(picks) ==> {
            let d = final(src).replies().skip(old(src).replies().len() as int);
            &&& all_drawn(d)
            &&& picks@ == accepted_values(d, n)
            &&& picks.len() == count
            &&& forall|i: int| 0 <= i < picks.len() ==> #[trigger] picks@[i] < n
        },
{
    let ghost start = src.replies();
    let mut picks: Vec<u64> = Vec::new();
    let mut k: u32 = 0;
    proof {
        assert(start.is_prefix_of(start)) by {
            assert(start =~= start.subrange(0, start.len() as int));
        }
        assert(start.skip(start.len() as int) =~= Seq::<Result<u64, getrandom::Error>>::empty());
    }
    while k < count
        invariant
            k <= count,
            count > 0 ==> n > 0,
            start == old(src).replies(),
            start.is_prefix_of(src.replies()),
            k == 0 ==> src.replies() == start,
            all_drawn(src.replies().skip(start.len() as int)),
            picks@ == accepted_values(src.replies().skip(start.len() as int), n),
            picks.len() == k,
            forall|i: int| 0 <= i < picks.len() ==> #[trigger] picks@[i] < n,
        decreases count - k,
    {
        let ghost before = src.replies();
        let res = uniform_from(src, n);
        proof {
            lemma_prefix_trans(start, before, src.replies());
        }
        let idx = match res {
            Ok(v) => v,
            Err(e) => {
                return Err(e);
            },
        };
        proof {
            let after = src.replies();
            let d0 = before.skip(start.len() as int);
            let e = after.skip(before.len() as int);
            lemma_uniform_value_is_accepted_draw(e, n, idx);
            lemma_skip_split(start, before, after);
            lemma_accepted_values_concat(d0, e, n);
            let d = after.skip(start.len() as int);
            assert forall|i: int| 0 <= i < d.len() implies #[trigger] d[i] is Ok by {
                if i < d0.len() {
                    assert(d[i] == d0[i]);
                } else {
                    assert(d[i] == e[i - d0.len()]);
                }
            }
        }
        picks.push(idx);
        k = k + 1;
    }
    Ok(picks)
}

/// Whether `pw` is the passphrase that the draws `replies` give when the
/// first `k` of them are the draws of the words: the `count` words of
/// `list` at the values of the accepted draws among those `k` replies (in
/// the order drawn, each below the size of `list`), joined by `sep`
/// (capitalised if `cap`), then the number that the one accepted draw
/// among the other replies gives below `10^digits`, as `digits` digits
/// (no reply, and no digit, when `digits` is 0).
pub open spec fn phrase_from_draws(
    pw: Seq<char>,
    replies: Seq<Result<u64, getrandom::Error>>,
    k: int,
    list: Seq<Seq<char>>,
    count: nat,
    sep: Seq<char>,
    cap: bool,
    digits: nat,
) -> bool {
    let picks = accepted_values(replies.take(k), list.len() as u64);
    let rest = replies.skip(k);
    &&& 0 <= k <= replies.len()
    &&& picks.len() == count
    &&& if digits == 0 {
        rest.len() == 0 && pw == passphrase_of(list, index_seq(picks), sep, cap, 0, 0)
    } else {
        let tail = accepted_values(rest, pow(10, digits) as u64);
        tail.len() == 1 && pw == passphrase_of(
            list,
            index_seq(picks),
            sep,
            cap,
            digits,
            tail[0] as nat,
        )
    }
}

/// Whether `pw` is the passphrase that the draws `replies` give, the
/// words drawn first and the digits after them.
pub open spec fn phrase_drawn(
    pw: Seq<char>,
    replies: Seq<Result<u64, getrandom::Error>>,
    list: Seq<Seq<char>>,
    count: nat,
    sep: Seq<char>,
    cap: bool,
    digits: nat,
) -> bool {
    exists|k: int| #[trigger] phrase_from_draws(pw, replies, k, list, count, sep, cap, digits)
}

/// Whether `pw` is the password that the draws `replies` give: the
/// characters of the alphabet at the values of the accepted draws (each
/// below the size of the alphabet), one for each of `len` draws, in the
/// order drawn.
pub open spec fn password_drawn(
    pw: Seq<char>,
    replies: Seq<Result<u64, getrandom::Error>>,
    symbols: bool,
    len: nat,
) -> bool {
    let picks = accepted_values(replies, alphabet_spec(symbols).len() as u64);
    &&& picks.len() == len
    &&& pw == chars_at(alphabet_spec(symbols), index_seq(picks))
}

/// Draws a passphrase or password as `opts` asks for from the random
/// source `src`. A passphrase is `count` words of `words`, each picked by
/// a draw of its own, joined by the separator (capitalised if asked),
/// followed by the given number of zero-padded digits from one more draw;
/// a password is its length of characters of its alphabet, each picked by
/// a draw of its own. What comes out is stated over the replies read: all
/// of them draws, the values of the accepted ones picking the words and
/// the digits, or the characters, in order. A request that needs no draw
/// (no words and no digits, or a password of length 0) reads nothing and
/// always succeeds, with the empty text.
pub fn generate_from(src: &mut OsRandom, opts: &Opts, words: &[&str]) -> (r: Result<
    String,
    getrandom::Error,
>)
    requires
        opts.kind matches Kind::Passphrase { words: count, digits, .. } ==> (count > 0
            ==> words.len() > 0) && digits <= 19,
    ensures
        old(src).replies().is_prefix_of(final(src).replies()),
        needs_no_draw(opts.kind@) ==> (r matches Ok(pw) && pw@.len() == 0 && final(src).replies()
            == old(src).replies()),
        r is Ok ==> all_drawn(final(src).replies().skip(old(src).replies().len() as int)),
        r matches Ok(pw) ==> match opts.kind {
            Kind::Passphrase { words: count, sep, digits, capitalize } => {
                &&& phrase_drawn(
                    pw@,
                    final(src).replies().skip(old(src).replies().len() as int),
                    word_views(words@),
                    count as nat,
                    sep@,
                    capitalize,
                    digits as nat,
                )
                &&& is_passphrase(
                    pw@,
                    word_views(words@),
                    count as nat,
                    sep@,
                    capitalize,
                    digits as nat,
                )
            },
            Kind::Password { len, symbols } => {
                &&& password_drawn(
                    pw@,
                    final(src).replies().skip(old(src).replies().len() as int),
                    symbols,
                    len as nat,
                )
                &&& is_password(pw@, alphabet_spec(symbols), len as nat)
            },
        },
{
    let ghost start = src.replies();
    match &opts.kind {
        Kind::Passphrase { words: count, sep, digits, capitalize: cap } => {
            let picks = draw_indices(src, *count, words.len() as u64)?;
            let ghost mid = src.replies();
            let mut v: u64 = 0;
            if *digits > 0 {
                let bound = pow10(*digits);
                proof {
                    lemma_pow_positive(10, *digits as nat);
                }
                let res = uniform_from(src, bound);
                proof {
                    lemma_prefix_trans(start, mid, src.replies());
                }
                v = match res {
                    Ok(x) => x,
                    Err(e) => {
                        return Err(e);
                    },
                };
                proof {
                    lemma_uniform_value_is_accepted_draw(src.replies().skip(mid.len() as int), bound, v);
                    assert(pow(10, *digits as nat) as u64 == bound);
                }
            }
            let pw = assemble_passphrase(words, &picks, sep.as_str(), *cap, *digits, v);
            proof {
                let list = word_views(words@);
                let fin = src.replies();
                let d = fin.skip(start.len() as int);
                let d1 = mid.skip(start.len() as int);
                let k = d1.len() as int;
                assert(d.take(k) =~= d1);
                assert(list.len() as u64 == words.len() as u64);
                if *digits == 0 {
                    lemma_pow0(10);
                    assert(d =~= d1);
                    assert(d.skip(k).len() == 0);
                } else {
                    let e = fin.skip(mid.len() as int);
                    lemma_skip_split(start, mid, fin);
                    assert(d.skip(k) =~= e);
                    assert forall|i: int| 0 <= i < d.len() implies #[trigger] d[i] is Ok by {
                        if i < d1.len() {
                            assert(d[i] == d1[i]);
                        } else {
                            assert(d[i] == e[i - d1.len()]);
                        }
                    }
                }
                assert(phrase_from_draws(pw@, d, k, list, *count as nat, sep@, *cap, *digits as nat));
                let ps = index_seq(picks@);
                assert(valid_picks(ps, *count as nat, list.len()));
                assert(pw@ == passphrase_of(list, ps, sep@, *cap, *digits as nat, v as nat));
            }
            Ok(pw)
        },
        Kind::Password { len, symbols } => {
            let alpha = alphabet(*symbols);
            let picks = draw_indices(src, *len, alpha.len() as u64)?;
            let pw = assemble_password(&alpha, &picks);
            proof {
                let ps = index_seq(picks@);
                assert(valid_picks(ps, *len as nat, alpha.len() as nat));
                assert(pw@ == chars_at(alpha@, ps));
            }
            Ok(pw)
        },
    }
}

/// Draws a passphrase or password as `opts` asks for from the operating
/// system's random source, as `generate_from` states it. A request that
/// needs no draw always succeeds, with the empty text.
pub fn generate(opts: &Opts, words: &[&str]) -> (r: Result<String, getrandom::Error>)
    requires
        opts.kind matches Kind::Passphrase { words: count, digits, .. } ==> (count > 0
            ==> words.len() > 0) && digits <= 19,
    ensures
        needs_no_draw(opts.kind@) ==> (r matches Ok(pw) && pw@.len() == 0),
        r matches Ok(pw) ==> match opts.kind {
            Kind::Passphrase { words: count, sep, digits, capitalize } => is_passphrase(
                pw@,
                word_views(words@),
                count as nat,
                sep@,
                capitalize,
                digits as nat,
            ),
            Kind::Password { len, symbols } => is_password(pw@, alphabet_spec(symbols), len as nat),
        },
{
    let mut src = OsRandom::new();
    generate_from(&mut src, opts, words)
}

/// The message for a word list of the wrong size.
pub open spec fn corrupt_wordlist_message(count: nat) -> Seq<char> {
    "embedded wordlist is corrupt ("@ + decimal(count) + " words, expected 7776)"@
}

/// Checks that the word list holds exactly `EXPECTED_WORDS` words.
pub fn validate_wordlist(words: &[&str]) -> (r: Result<(), String>)
    ensures
        r is Ok <==> words.len() == EXPECTED_WORDS,
        r matches Err(m) ==> m@ == corrupt_wordlist_message(words.len() as nat),
{
    if words.len() as u64 == EXPECTED_WORDS {
        Ok(())
    } else {
        let mut m = String::from_str("embedded wordlist is corrupt (");
        push_decimal(&mut m, words.len() as u128);
        m.append(" words, expected 7776)");
        Err(m)
    }
}

} // verus!
