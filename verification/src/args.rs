//! Reading the command line into a `Command`.
//!
//! The arguments are read left to right; each option updates what has been
//! seen so far (`ScanView`), `-h` stops at once with `Help`, and the first
//! malformed option stops with its message. What was seen is then resolved
//! into a passphrase or a password request, or refused.

use crate::entropy::{
    least_length, lemma_least_length_is_least, lemma_reached_bits_show_when_rounded, rounded_log2, length_for_bits, length_for_bits_spec,
    password_outcomes, phrase_outcomes, reaches, ALNUM_CHAR_BITS_E18, SYMBOL_CHAR_BITS_E18,
    WORD_BITS_E18,
};
use vstd::arithmetic::power::*;
use crate::opts::{
    alphabet_len, alphabet_len_spec, outcomes, Command, CommandView, Kind, KindView, Opts, OptsView,
    DEFAULT_PASSWORD_LEN, DEFAULT_WORDS, MAX_DIGITS, MAX_PASSWORD_LEN, MAX_WORDS,
};
use crate::text::{decimal, parse_u32, parse_u32_spec, push_decimal, str_eq};
use vstd::prelude::*;
use vstd::string::*;

verus! {

/// What the options read so far have set.
pub struct ScanView {
    pub words: Option<u32>,
    pub bits: Option<u32>,
    pub sep: Option<Seq<char>>,
    pub digits: Option<u32>,
    pub capitalize: bool,
    pub password: Option<Option<u32>>,
    pub symbols: bool,
    pub verbose: bool,
    /// The first passphrase-only option seen.
    pub phrase_flag: Option<Seq<char>>,
}

/// What reading one option leads to.
pub enum StepView {
    Help,
    Fail(Seq<char>),
    /// The options seen, and where the next option starts.
    Next(ScanView, int),
}

/// What reading the rest of the command line leads to.
pub enum ScanOutcome {
    Help,
    Fail(Seq<char>),
    Done(ScanView),
}

/// The character sequences of the arguments.
pub open spec fn arg_views(args: Seq<String>) -> Seq<Seq<char>> {
    args.map_values(|a: String| a@)
}

/// Nothing set yet.
pub open spec fn initial_scan() -> ScanView {
    ScanView {
        words: None,
        bits: None,
        sep: None,
        digits: None,
        capitalize: false,
        password: None,
        symbols: false,
        verbose: false,
        phrase_flag: None,
    }
}

/// The first passphrase-only option, once `flag` has been seen.
pub open spec fn first_phrase_flag(st: ScanView, flag: Seq<char>) -> Option<Seq<char>> {
    match st.phrase_flag {
        Some(f) => Some(f),
        None => Some(flag),
    }
}

/// The message for an option given as the last argument, without its value.
pub open spec fn missing_message(flag: Seq<char>) -> Seq<char> {
    "missing value for "@ + flag
}

/// The message for a value that is not a `u32`.
pub open spec fn not_a_number_message(flag: Seq<char>, value: Seq<char>) -> Seq<char> {
    flag + " expects a number, got '"@ + value + "'"@
}

/// The outcome of reading a numeric option at `i`: its value, or the
/// message why there is none.
pub open spec fn numeric_value(args: Seq<Seq<char>>, i: int) -> Result<u32, Seq<char>> {
    if i + 1 >= args.len() {
        Err(missing_message(args[i]))
    } else {
        match parse_u32_spec(args[i + 1]) {
            Some(n) => Ok(n),
            None => Err(not_a_number_message(args[i], args[i + 1])),
        }
    }
}

/// Reading the option at `i` (with `0 <= i < args.len()`).
pub open spec fn step(args: Seq<Seq<char>>, i: int, st: ScanView) -> StepView {
    let a = args[i];
    if a == "-h"@ || a == "--help"@ {
        StepView::Help
    } else if a == "-w"@ || a == "--words"@ {
        match numeric_value(args, i) {
            Err(m) => StepView::Fail(m),
            Ok(n) => if n == 0 || n > MAX_WORDS {
                StepView::Fail(a + " must be 1..=64, got "@ + args[i + 1])
            } else {
                StepView::Next(
                    ScanView { words: Some(n), phrase_flag: first_phrase_flag(st, a), ..st },
                    i + 2,
                )
            },
        }
    } else if a == "-d"@ || a == "--sep"@ {
        if i + 1 >= args.len() {
            StepView::Fail(missing_message(a))
        } else {
            StepView::Next(
                ScanView { sep: Some(args[i + 1]), phrase_flag: first_phrase_flag(st, a), ..st },
                i + 2,
            )
        }
    } else if a == "-n"@ || a == "--digits"@ {
        match numeric_value(args, i) {
            Err(m) => StepView::Fail(m),
            Ok(n) => if n > MAX_DIGITS {
                StepView::Fail(a + " must be 0..=8, got "@ + args[i + 1])
            } else {
                StepView::Next(
                    ScanView { digits: Some(n), phrase_flag: first_phrase_flag(st, a), ..st },
                    i + 2,
                )
            },
        }
    } else if a == "-c"@ || a == "--capitalize"@ {
        StepView::Next(
            ScanView { capitalize: true, phrase_flag: first_phrase_flag(st, a), ..st },
            i + 1,
        )
    } else if a == "-p"@ || a == "--password"@ {
        if i + 1 < args.len() && parse_u32_spec(args[i + 1]) is Some {
            let n = parse_u32_spec(args[i + 1])->0;
            if n == 0 || n > MAX_PASSWORD_LEN {
                StepView::Fail(a + " must be 1..=256, got "@ + decimal(n as nat))
            } else {
                StepView::Next(ScanView { password: Some(Some(n)), ..st }, i + 2)
            }
        } else {
            StepView::Next(ScanView { password: Some(None), ..st }, i + 1)
        }
    } else if a == "--symbols"@ {
        StepView::Next(ScanView { symbols: true, ..st }, i + 1)
    } else if a == "-b"@ || a == "--bits"@ {
        match numeric_value(args, i) {
            Err(m) => StepView::Fail(m),
            Ok(n) => if n == 0 {
                StepView::Fail(a + " must be positive"@)
            } else {
                StepView::Next(ScanView { bits: Some(n), ..st }, i + 2)
            },
        }
    } else if a == "-v"@ || a == "--verbose"@ {
        StepView::Next(ScanView { verbose: true, ..st }, i + 1)
    } else {
        StepView::Fail("unknown option '"@ + a + "'"@)
    }
}

/// Reading the options from `i` on.
pub open spec fn scan(args: Seq<Seq<char>>, i: int, st: ScanView) -> ScanOutcome
    decreases args.len() - i,
{
    if i < 0 || i >= args.len() {
        ScanOutcome::Done(st)
    } else {
        match step(args, i, st) {
            StepView::Help => ScanOutcome::Help,
            StepView::Fail(m) => ScanOutcome::Fail(m),
            StepView::Next(next, j) => if j > i {
                scan(args, j, next)
            } else {
                ScanOutcome::Done(next)
            },
        }
    }
}

/// Bits per password character, in units of `10^-18`.
pub open spec fn char_bits_e18(symbols: bool) -> nat {
    if symbols {
        SYMBOL_CHAR_BITS_E18 as nat
    } else {
        ALNUM_CHAR_BITS_E18 as nat
    }
}

/// The password length that the options ask for.
pub open spec fn password_length(explicit: Option<u32>, bits: Option<u32>, symbols: bool) -> Result<
    u32,
    Seq<char>,
> {
    match explicit {
        Some(n) => match bits {
            Some(_) => Err("-p N and -b cannot be combined"@),
            None => Ok(n),
        },
        None => match bits {
            Some(b) => length_for_bits_spec(
                alphabet_len_spec(symbols),
                char_bits_e18(symbols),
                0,
                b as nat,
                MAX_PASSWORD_LEN as nat,
                "chars"@,
            ),
            None => Ok(DEFAULT_PASSWORD_LEN),
        },
    }
}

/// The number of passphrase words that the options ask for.
pub open spec fn phrase_words(words: Option<u32>, bits: Option<u32>, digits: u32) -> Result<
    u32,
    Seq<char>,
> {
    match words {
        Some(w) => match bits {
            Some(_) => Err("-w and -b cannot be combined"@),
            None => Ok(w),
        },
        None => match bits {
            Some(b) => length_for_bits_spec(
                7776,
                WORD_BITS_E18 as nat,
                digits as nat,
                b as nat,
                MAX_WORDS as nat,
                "words"@,
            ),
            None => Ok(DEFAULT_WORDS),
        },
    }
}

/// What the options read add up to.
pub open spec fn resolve(st: ScanView) -> Result<CommandView, Seq<char>> {
    match st.password {
        Some(explicit) => match st.phrase_flag {
            Some(f) => Err(f + " applies to passphrases and cannot be combined with -p"@),
            None => match password_length(explicit, st.bits, st.symbols) {
                Ok(len) => Ok(
                    CommandView::Generate(
                        OptsView {
                            kind: KindView::Password { len, symbols: st.symbols },
                            verbose: st.verbose,
                        },
                    ),
                ),
                Err(m) => Err(m),
            },
        },
        None => if st.symbols {
            Err("--symbols requires -p"@)
        } else {
            let digits = match st.digits {
                Some(d) => d,
                None => 0,
            };
            match phrase_words(st.words, st.bits, digits) {
                Ok(words) => Ok(
                    CommandView::Generate(
                        OptsView {
                            kind: KindView::Passphrase {
                                words,
                                sep: match st.sep {
                                    Some(s) => s,
                                    None => "-"@,
                                },
                                digits,
                                capitalize: st.capitalize,
                            },
                            verbose: st.verbose,
                        },
                    ),
                ),
                Err(m) => Err(m),
            }
        },
    }
}

/// What the command line (without the program name) asks for, or the
/// message why it is refused.
pub open spec fn parse_args_spec(args: Seq<Seq<char>>) -> Result<CommandView, Seq<char>> {
    match scan(args, 0, initial_scan()) {
        ScanOutcome::Help => Ok(CommandView::Help),
        ScanOutcome::Fail(m) => Err(m),
        ScanOutcome::Done(st) => resolve(st),
    }
}

/// The options read so far.
struct Scan {
    words: Option<u32>,
    bits: Option<u32>,
    sep: Option<String>,
    digits: Option<u32>,
    capitalize: bool,
    password: Option<Option<u32>>,
    symbols: bool,
    verbose: bool,
    phrase_flag: Option<String>,
}

spec fn opt_string_view(s: Option<String>) -> Option<Seq<char>> {
    match s {
        Some(x) => Some(x@),
        None => None,
    }
}

impl View for Scan {
    type V = ScanView;

    closed spec fn view(&self) -> ScanView {
        ScanView {
            words: self.words,
            bits: self.bits,
            sep: opt_string_view(self.sep),
            digits: self.digits,
            capitalize: self.capitalize,
            password: self.password,
            symbols: self.symbols,
            verbose: self.verbose,
            phrase_flag: opt_string_view(self.phrase_flag),
        }
    }
}

/// Where reading one option leads.
enum Flow {
    Help,
    Fail(String),
    Next(usize),
}

/// The value after the option at `next - 1`, or the message that it is
/// missing.
pub fn take_value<'a>(args: &'a [String], next: usize, flag: &str) -> (r: Result<&'a str, String>)
    ensures
        next < args.len() ==> (r matches Ok(v) && v@ == args@[next as int]@),
        next >= args.len() ==> (r matches Err(m) && m@ == missing_message(flag@)),
{
    if next < args.len() {
        Ok(args[next].as_str())
    } else {
        let mut m = String::from_str("missing value for ");
        m.append(flag);
        Err(m)
    }
}

/// The `u32` that `s` spells, or the message that it is not one.
pub fn parse_num(flag: &str, s: &str) -> (r: Result<u32, String>)
    ensures
        match parse_u32_spec(s@) {
            Some(n) => r == Ok::<u32, String>(n),
            None => r matches Err(m) && m@ == not_a_number_message(flag@, s@),
        },
{
    match parse_u32(s) {
        Some(n) => Ok(n),
        None => {
            let mut m = String::from_str(flag);
            m.append(" expects a number, got '");
            m.append(s);
            m.append("'");
            Err(m)
        },
    }
}

/// Reads the numeric value of the option at `i`.
fn numeric_option(args: &[String], i: usize) -> (r: Result<u32, String>)
    requires
        i < args.len(),
    ensures
        match numeric_value(arg_views(args@), i as int) {
            Ok(n) => r == Ok::<u32, String>(n),
            Err(m) => r matches Err(e) && e@ == m,
        },
{
    let flag = args[i].as_str();
    let value = take_value(args, i + 1, flag)?;
    parse_num(flag, value)
}


/// Records `flag` as the first passphrase-only option, unless one was
/// seen before.
fn note_phrase_flag(st: &mut Scan, flag: &str)
    ensures
        final(st)@ == (ScanView { phrase_flag: first_phrase_flag(old(st)@, flag@), ..old(st)@ }),
{
    if st.phrase_flag.is_none() {
        st.phrase_flag = Some(String::from_str(flag));
    }
}

/// `flag` followed by `text` and `value`.
fn message3(flag: &str, text: &str, value: &str) -> (m: String)
    ensures
        m@ == flag@ + text@ + value@,
{
    let mut m = String::from_str(flag);
    m.append(text);
    m.append(value);
    m
}

/// Reads the option at `i` into `st`.
fn read_flag(args: &[String], i: usize, st: &mut Scan) -> (r: Flow)
    requires
        i < args.len(),
        old(st).digits matches Some(d) ==> d <= MAX_DIGITS,
    ensures
        final(st).digits matches Some(d) ==> d <= MAX_DIGITS,
        match step(arg_views(args@), i as int, old(st)@) {
            StepView::Help => r is Help,
            StepView::Fail(m) => (r matches Flow::Fail(e) && e@ == m),
            StepView::Next(next, j) => (r matches Flow::Next(k) && k == j && final(st)@ == next),
        },
        r matches Flow::Next(k) ==> i < k <= args.len(),
{
    let a = args[i].as_str();
    let ghost av = arg_views(args@);
    proof {
        assert(av[i as int] == a@);
        if i + 1 < args.len() {
            assert(av[i + 1] == args@[i + 1]@);
        }
    }
    if str_eq(a, "-h") || str_eq(a, "--help") {
        return Flow::Help;
    }
    if str_eq(a, "-w") || str_eq(a, "--words") {
        let n = match numeric_option(args, i) {
            Ok(n) => n,
            Err(e) => {
                return Flow::Fail(e);
            },
        };
        if n == 0 || n > MAX_WORDS {
            return Flow::Fail(message3(a, " must be 1..=64, got ", args[i + 1].as_str()));
        }
        st.words = Some(n);
        note_phrase_flag(st, a);
        return Flow::Next(i + 2);
    }
    if str_eq(a, "-d") || str_eq(a, "--sep") {
        let v = match take_value(args, i + 1, a) {
            Ok(v) => v,
            Err(e) => {
                return Flow::Fail(e);
            },
        };
        st.sep = Some(String::from_str(v));
        note_phrase_flag(st, a);
        return Flow::Next(i + 2);
    }
    if str_eq(a, "-n") || str_eq(a, "--digits") {
        let n = match numeric_option(args, i) {
            Ok(n) => n,
            Err(e) => {
                return Flow::Fail(e);
            },
        };
        if n > MAX_DIGITS {
            return Flow::Fail(message3(a, " must be 0..=8, got ", args[i + 1].as_str()));
        }
        st.digits = Some(n);
        note_phrase_flag(st, a);
        return Flow::Next(i + 2);
    }
    if str_eq(a, "-c") || str_eq(a, "--capitalize") {
        st.capitalize = true;
        note_phrase_flag(st, a);
        return Flow::Next(i + 1);
    }
    if str_eq(a, "-p") || str_eq(a, "--password") {
        let explicit = if i + 1 < args.len() {
            parse_u32(args[i + 1].as_str())
        } else {
            None
        };
        match explicit {
            Some(n) => {
                if n == 0 || n > MAX_PASSWORD_LEN {
                    let mut m = String::from_str(a);
                    m.append(" must be 1..=256, got ");
                    push_decimal(&mut m, n as u128);
                    return Flow::Fail(m);
                }
                st.password = Some(Some(n));
                return Flow::Next(i + 2);
            },
            None => {
                st.password = Some(None);
                return Flow::Next(i + 1);
            },
        }
    }
    if str_eq(a, "--symbols") {
        st.symbols = true;
        return Flow::Next(i + 1);
    }
    if str_eq(a, "-b") || str_eq(a, "--bits") {
        let n = match numeric_option(args, i) {
            Ok(n) => n,
            Err(e) => {
                return Flow::Fail(e);
            },
        };
        if n == 0 {
            let mut m = String::from_str(a);
            m.append(" must be positive");
            return Flow::Fail(m);
        }
        st.bits = Some(n);
        return Flow::Next(i + 2);
    }
    if str_eq(a, "-v") || str_eq(a, "--verbose") {
        st.verbose = true;
        return Flow::Next(i + 1);
    }
    Flow::Fail(message3("unknown option '", a, "'"))
}

/// The password length that the options ask for.
fn password_len(explicit: Option<u32>, bits: Option<u32>, symbols: bool) -> (r: Result<u32, String>)
    ensures
        match r {
            Ok(n) => password_length(explicit, bits, symbols) == Ok::<u32, Seq<char>>(n),
            Err(m) => password_length(explicit, bits, symbols) == Err::<u32, Seq<char>>(m@),
        },
{
    match explicit {
        Some(n) => {
            if bits.is_some() {
                Err(String::from_str("-p N and -b cannot be combined"))
            } else {
                Ok(n)
            }
        },
        None => match bits {
            Some(b) => {
                let unit = if symbols {
                    SYMBOL_CHAR_BITS_E18
                } else {
                    ALNUM_CHAR_BITS_E18
                };
                length_for_bits(alphabet_len(symbols), unit, 0, b, MAX_PASSWORD_LEN, "chars")
            },
            None => Ok(DEFAULT_PASSWORD_LEN),
        },
    }
}

/// The number of passphrase words that the options ask for.
fn phrase_word_count(words: Option<u32>, bits: Option<u32>, digits: u32) -> (r: Result<u32, String>)
    requires
        digits <= MAX_DIGITS,
    ensures
        match r {
            Ok(n) => phrase_words(words, bits, digits) == Ok::<u32, Seq<char>>(n),
            Err(m) => phrase_words(words, bits, digits) == Err::<u32, Seq<char>>(m@),
        },
{
    match words {
        Some(w) => {
            if bits.is_some() {
                Err(String::from_str("-w and -b cannot be combined"))
            } else {
                Ok(w)
            }
        },
        None => match bits {
            Some(b) => length_for_bits(7776, WORD_BITS_E18, digits, b, MAX_WORDS, "words"),
            None => Ok(DEFAULT_WORDS),
        },
    }
}

/// Turns the options read into a command, or the message why they do
/// not make one.
fn resolve_scan(st: Scan) -> (r: Result<Command, String>)
    requires
        st.digits matches Some(d) ==> d <= MAX_DIGITS,
    ensures
        match r {
            Ok(c) => resolve(st@) == Ok::<CommandView, Seq<char>>(c@),
            Err(m) => resolve(st@) == Err::<CommandView, Seq<char>>(m@),
        },
{
    match st.password {
        Some(explicit) => {
            if let Some(f) = st.phrase_flag {
                let mut m = f;
                m.append(" applies to passphrases and cannot be combined with -p");
                return Err(m);
            }
            let len = password_len(explicit, st.bits, st.symbols)?;
            Ok(
                Command::Generate(
                    Opts { kind: Kind::Password { len, symbols: st.symbols }, verbose: st.verbose },
                ),
            )
        },
        None => {
            if st.symbols {
                return Err(String::from_str("--symbols requires -p"));
            }
            let digits = match st.digits {
                Some(d) => d,
                None => 0,
            };
            let words = phrase_word_count(st.words, st.bits, digits)?;
            let sep = match st.sep {
                Some(s) => s,
                None => String::from_str("-"),
            };
            Ok(
                Command::Generate(
                    Opts {
                        kind: Kind::Passphrase { words, sep, digits, capitalize: st.capitalize },
                        verbose: st.verbose,
                    },
                ),
            )
        },
    }
}

/// Reads the command line (without the program name): `-h` anywhere
/// before a malformed option gives `Help`; otherwise the options are
/// checked one by one and then combined into a passphrase request (the
/// default: 5 words joined by `-`) or a password request (`-p`: 16
/// characters unless a length or `-b` says otherwise). Each refusal comes
/// with its message, exactly as `parse_args_spec` states it.
pub fn parse_args(args: &[String]) -> (r: Result<Command, String>)
    ensures
        match r {
            Ok(c) => parse_args_spec(arg_views(args@)) == Ok::<CommandView, Seq<char>>(c@),
            Err(m) => parse_args_spec(arg_views(args@)) == Err::<CommandView, Seq<char>>(m@),
        },
{
    let ghost av = arg_views(args@);
    let mut st = Scan {
        words: None,
        bits: None,
        sep: None,
        digits: None,
        capitalize: false,
        password: None,
        symbols: false,
        verbose: false,
        phrase_flag: None,
    };
    let mut i: usize = 0;
    proof {
        assert(st@ == initial_scan());
    }
    while i < args.len()
        invariant
            i <= args.len(),
            av == arg_views(args@),
            av.len() == args.len(),
            scan(av, i as int, st@) == scan(av, 0, initial_scan()),
            st.digits matches Some(d) ==> d <= MAX_DIGITS,
        decreases args.len() - i,
    {
        match read_flag(args, i, &mut st) {
            Flow::Help => {
                return Ok(Command::Help);
            },
            Flow::Fail(m) => {
                return Err(m);
            },
            Flow::Next(j) => {
                i = j;
            },
        }
    }
    resolve_scan(st)
}


/// `-b bits` picks the fewest words that reach `bits` bits: the chosen
/// count is in `1..=64`, `7776^n * 10^digits >= 2^bits`, and no smaller
/// count reaches it; when `-b` is refused, not even 64 words do.
pub proof fn lemma_bits_choose_fewest_words(bits: u32, digits: u32)
    ensures
        match phrase_words(None, Some(bits), digits) {
            Ok(n) => {
                &&& 1 <= n <= MAX_WORDS
                &&& reaches(phrase_outcomes(n as nat, digits as nat), bits as nat)
                &&& forall|m: nat|
                    1 <= m < n ==> !reaches(phrase_outcomes(m, digits as nat), bits as nat)
            },
            Err(_) => !reaches(phrase_outcomes(MAX_WORDS as nat, digits as nat), bits as nat),
        },
{
    lemma_least_length_is_least(7776, digits as nat, bits as nat, 1, MAX_WORDS as nat);
}

/// `-p -b bits` picks the fewest characters that reach `bits` bits: the
/// chosen length is in `1..=256`, `alphabet^n >= 2^bits`, and no shorter
/// length reaches it; when refused, not even 256 characters do.
pub proof fn lemma_bits_choose_fewest_chars(bits: u32, symbols: bool)
    ensures
        match password_length(None, Some(bits), symbols) {
            Ok(n) => {
                &&& 1 <= n <= MAX_PASSWORD_LEN
                &&& reaches(password_outcomes(alphabet_len_spec(symbols), n as nat), bits as nat)
                &&& forall|m: nat|
                    1 <= m < n ==> !reaches(
                        password_outcomes(alphabet_len_spec(symbols), m),
                        bits as nat,
                    )
            },
            Err(_) => !reaches(
                password_outcomes(alphabet_len_spec(symbols), MAX_PASSWORD_LEN as nat),
                bits as nat,
            ),
        },
{
    let a = alphabet_len_spec(symbols);
    lemma_least_length_is_least(a, 0, bits as nat, 1, MAX_PASSWORD_LEN as nat);
    lemma_pow0(10);
    assert forall|m: nat| #[trigger] pow(a as int, m) * pow(10, 0) == pow(a as int, m) by {}
}


/// A command line whose length comes from `-b b` asks for something that
/// reaches `b` bits: whenever `-b b` is the last `-b` read and the command
/// line is accepted, the request has at least `2^b` equally likely results,
/// and its entropy in tenths of a bit (`Opts::entropy_tenths`) is at least
/// `10 * b`.
pub proof fn lemma_parsed_bits_are_reached(args: Seq<Seq<char>>, st: ScanView, b: u32, o: OptsView)
    requires
        scan(args, 0, initial_scan()) == ScanOutcome::Done(st),
        st.bits == Some(b),
        parse_args_spec(args) == Ok::<CommandView, Seq<char>>(CommandView::Generate(o)),
    ensures
        reaches(outcomes(o.kind), b as nat),
        rounded_log2(outcomes(o.kind), 10) >= 10 * b,
{
    match st.password {
        Some(explicit) => {
            lemma_bits_choose_fewest_chars(b, st.symbols);
        },
        None => {
            let digits = match st.digits {
                Some(d) => d,
                None => 0,
            };
            lemma_bits_choose_fewest_words(b, digits);
        },
    }
    lemma_reached_bits_show_when_rounded(outcomes(o.kind), b as nat, 10);
}

/// A passphrase request as the command line gives it.
pub open spec fn phrase_request(words: u32, sep: Seq<char>, digits: u32, capitalize: bool, verbose: bool) -> Result<
    CommandView,
    Seq<char>,
> {
    Ok(
        CommandView::Generate(
            OptsView { kind: KindView::Passphrase { words, sep, digits, capitalize }, verbose },
        ),
    )
}

/// A password request as the command line gives it.
pub open spec fn password_request(len: u32, symbols: bool, verbose: bool) -> Result<CommandView, Seq<char>> {
    Ok(CommandView::Generate(OptsView { kind: KindView::Password { len, symbols }, verbose }))
}

/// The spellings of the options.
proof fn lemma_option_spellings()
    ensures
        "-h"@ == seq!['-', 'h'],
        "--help"@ == seq!['-', '-', 'h', 'e', 'l', 'p'],
        "-w"@ == seq!['-', 'w'],
        "--words"@ == seq!['-', '-', 'w', 'o', 'r', 'd', 's'],
        "-d"@ == seq!['-', 'd'],
        "--sep"@ == seq!['-', '-', 's', 'e', 'p'],
        "-n"@ == seq!['-', 'n'],
        "--digits"@ == seq!['-', '-', 'd', 'i', 'g', 'i', 't', 's'],
        "-c"@ == seq!['-', 'c'],
        "--capitalize"@ == seq!['-', '-', 'c', 'a', 'p', 'i', 't', 'a', 'l', 'i', 'z', 'e'],
        "-p"@ == seq!['-', 'p'],
        "--password"@ == seq!['-', '-', 'p', 'a', 's', 's', 'w', 'o', 'r', 'd'],
        "--symbols"@ == seq!['-', '-', 's', 'y', 'm', 'b', 'o', 'l', 's'],
        "-b"@ == seq!['-', 'b'],
        "--bits"@ == seq!['-', '-', 'b', 'i', 't', 's'],
        "-v"@ == seq!['-', 'v'],
        "--verbose"@ == seq!['-', '-', 'v', 'e', 'r', 'b', 'o', 's', 'e'],
{
    reveal_strlit("-h");
    reveal_strlit("--help");
    reveal_strlit("-w");
    reveal_strlit("--words");
    reveal_strlit("-d");
    reveal_strlit("--sep");
    reveal_strlit("-n");
    reveal_strlit("--digits");
    reveal_strlit("-c");
    reveal_strlit("--capitalize");
    reveal_strlit("-p");
    reveal_strlit("--password");
    reveal_strlit("--symbols");
    reveal_strlit("-b");
    reveal_strlit("--bits");
    reveal_strlit("-v");
    reveal_strlit("--verbose");
}

/// `--sep S` is the long name of `-d S`: for every value `S`, both ask for
/// the default passphrase of 5 words, joined by `S`.
pub proof fn lemma_sep_long_and_short(s: Seq<char>)
    ensures
        parse_args_spec(seq!["--sep"@, s]) == parse_args_spec(seq!["-d"@, s]),
        parse_args_spec(seq!["-d"@, s]) == phrase_request(5, s, 0, false, false),
{
    lemma_option_spellings();
    reveal_with_fuel(scan, 3);
}

/// `--words N` is the long name of `-w N`: for every value that spells a
/// count `N` in `1..=64`, both ask for a passphrase of `N` words.
pub proof fn lemma_words_long_and_short(s: Seq<char>, n: u32)
    requires
        parse_u32_spec(s) == Some(n),
        1 <= n <= 64,
    ensures
        parse_args_spec(seq!["--words"@, s]) == parse_args_spec(seq!["-w"@, s]),
        parse_args_spec(seq!["-w"@, s]) == phrase_request(n, "-"@, 0, false, false),
{
    lemma_option_spellings();
    reveal_with_fuel(scan, 3);
}

/// `--digits N` is the long name of `-n N`: for every value that spells a
/// count `N` in `0..=8`, both ask for the default passphrase followed by
/// `N` digits.
pub proof fn lemma_digits_long_and_short(s: Seq<char>, n: u32)
    requires
        parse_u32_spec(s) == Some(n),
        n <= 8,
    ensures
        parse_args_spec(seq!["--digits"@, s]) == parse_args_spec(seq!["-n"@, s]),
        parse_args_spec(seq!["-n"@, s]) == phrase_request(5, "-"@, n, false, false),
{
    lemma_option_spellings();
    reveal_with_fuel(scan, 3);
}

/// `--capitalize` is the long name of `-c`: both ask for the default
/// passphrase with its words capitalised.
pub proof fn lemma_capitalize_long_and_short()
    ensures
        parse_args_spec(seq!["--capitalize"@]) == parse_args_spec(seq!["-c"@]),
        parse_args_spec(seq!["-c"@]) == phrase_request(5, "-"@, 0, true, false),
{
    lemma_option_spellings();
    reveal_with_fuel(scan, 3);
}

/// `--verbose` is the long name of `-v`: both ask for the default
/// passphrase with its entropy reported.
pub proof fn lemma_verbose_long_and_short()
    ensures
        parse_args_spec(seq!["--verbose"@]) == parse_args_spec(seq!["-v"@]),
        parse_args_spec(seq!["-v"@]) == phrase_request(5, "-"@, 0, false, true),
{
    lemma_option_spellings();
    reveal_with_fuel(scan, 3);
}

/// `--help` is the long name of `-h`: both ask for the usage text, whatever
/// follows them.
pub proof fn lemma_help_long_and_short(rest: Seq<Seq<char>>)
    ensures
        parse_args_spec(seq!["--help"@] + rest) == parse_args_spec(seq!["-h"@] + rest),
        parse_args_spec(seq!["-h"@] + rest) == Ok::<CommandView, Seq<char>>(CommandView::Help),
{
    lemma_option_spellings();
    assert((seq!["--help"@] + rest)[0] == "--help"@);
    assert((seq!["-h"@] + rest)[0] == "-h"@);
}

/// `--password` is the long name of `-p`: alone, both ask for a password of
/// 16 characters; followed by a value that spells a length `N` in
/// `1..=256`, both ask for a password of `N` characters.
pub proof fn lemma_password_long_and_short(s: Seq<char>, n: u32)
    requires
        parse_u32_spec(s) == Some(n),
        1 <= n <= 256,
    ensures
        parse_args_spec(seq!["--password"@]) == parse_args_spec(seq!["-p"@]),
        parse_args_spec(seq!["-p"@]) == password_request(16, false, false),
        parse_args_spec(seq!["--password"@, s]) == parse_args_spec(seq!["-p"@, s]),
        parse_args_spec(seq!["-p"@, s]) == password_request(n, false, false),
{
    lemma_option_spellings();
    reveal_with_fuel(scan, 3);
}

/// `--bits B` is the long name of `-b B`: for every value that spells a
/// positive number of bits, the two command lines are answered alike.
pub proof fn lemma_bits_long_and_short(s: Seq<char>, b: u32)
    requires
        parse_u32_spec(s) == Some(b),
        b >= 1,
    ensures
        parse_args_spec(seq!["--bits"@, s]) == parse_args_spec(seq!["-b"@, s]),
        parse_args_spec(seq!["-b"@, s]) == resolve(ScanView { bits: Some(b), ..initial_scan() }),
{
    lemma_option_spellings();
    reveal_with_fuel(scan, 3);
}

/// `--symbols` widens the alphabet of a password and of nothing else:
/// after `-p` it asks for a password of 16 characters with symbols;
/// without `-p` the command line is refused.
pub proof fn lemma_symbols_need_password()
    ensures
        parse_args_spec(seq!["-p"@, "--symbols"@]) == password_request(16, true, false),
        parse_args_spec(seq!["--symbols"@, "-p"@]) == password_request(16, true, false),
        parse_args_spec(seq!["--symbols"@]) == Err::<CommandView, Seq<char>>(
            "--symbols requires -p"@,
        ),
{
    lemma_option_spellings();
    reveal_with_fuel(scan, 3);
}

} // verus!
