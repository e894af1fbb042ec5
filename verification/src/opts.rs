//! What to generate, as the command line asked for it.

use crate::entropy::{
    describe_password, describe_phrase, password_description, password_entropy_tenths,
    password_outcomes, phrase_description, phrase_entropy_tenths, phrase_outcomes, rounded_log2,
};
use vstd::prelude::*;

verus! {

/// Longest passphrase, in words.
pub const MAX_WORDS: u32 = 64;

/// Most random digits after a passphrase.
pub const MAX_DIGITS: u32 = 8;

/// Longest password, in characters.
pub const MAX_PASSWORD_LEN: u32 = 256;

/// Words in a passphrase when neither `-w` nor `-b` says otherwise.
pub const DEFAULT_WORDS: u32 = 5;

/// Characters in a password when neither `-p N` nor `-b` says otherwise.
pub const DEFAULT_PASSWORD_LEN: u32 = 16;

/// A passphrase from the word list, or a random password.
pub enum Kind {
    Passphrase { words: u32, sep: String, digits: u32, capitalize: bool },
    Password { len: u32, symbols: bool },
}

/// The generation request: what to make, and whether to report entropy.
pub struct Opts {
    pub kind: Kind,
    pub verbose: bool,
}

/// What the command line asks for.
pub enum Command {
    Generate(Opts),
    Help,
}

/// `Kind` with the separator as a character sequence.
pub enum KindView {
    Passphrase { words: u32, sep: Seq<char>, digits: u32, capitalize: bool },
    Password { len: u32, symbols: bool },
}

/// `Opts` with the separator as a character sequence.
pub struct OptsView {
    pub kind: KindView,
    pub verbose: bool,
}

/// `Command` with the separator as a character sequence.
pub enum CommandView {
    Generate(OptsView),
    Help,
}

impl View for Kind {
    type V = KindView;

    open spec fn view(&self) -> KindView {
        match self {
            Kind::Passphrase { words, sep, digits, capitalize } => KindView::Passphrase {
                words: *words,
                sep: sep@,
                digits: *digits,
                capitalize: *capitalize,
            },
            Kind::Password { len, symbols } => KindView::Password { len: *len, symbols: *symbols },
        }
    }
}

impl View for Opts {
    type V = OptsView;

    open spec fn view(&self) -> OptsView {
        OptsView { kind: self.kind@, verbose: self.verbose }
    }
}

impl View for Command {
    type V = CommandView;

    open spec fn view(&self) -> CommandView {
        match self {
            Command::Generate(o) => CommandView::Generate(o@),
            Command::Help => CommandView::Help,
        }
    }
}

/// Size of the password alphabet: 62 alphanumerics, 88 with symbols.
pub open spec fn alphabet_len_spec(symbols: bool) -> nat {
    if symbols {
        88
    } else {
        62
    }
}

/// Number of equally likely results of what `kind` asks for.
pub open spec fn outcomes(kind: KindView) -> nat {
    match kind {
        KindView::Passphrase { words, digits, .. } => phrase_outcomes(words as nat, digits as nat),
        KindView::Password { len, symbols } => password_outcomes(alphabet_len_spec(symbols), len as nat),
    }
}

/// The entropy report for what `kind` asks for.
pub open spec fn description(kind: KindView) -> Seq<char> {
    match kind {
        KindView::Passphrase { words, digits, .. } => phrase_description(words as nat, digits as nat),
        KindView::Password { len, symbols } => password_description(alphabet_len_spec(symbols), len as nat),
    }
}

/// Size of the password alphabet.
pub fn alphabet_len(symbols: bool) -> (n: u32)
    ensures
        n == alphabet_len_spec(symbols),
{
    if symbols {
        88
    } else {
        62
    }
}

impl Opts {
    /// Entropy in tenths of a bit, rounded to the nearest: ten times the
    /// base-2 logarithm of the number of equally likely results.
    pub fn entropy_tenths(&self) -> (k: u64)
        ensures
            k == rounded_log2(outcomes(self.kind@), 10),
    {
        match &self.kind {
            Kind::Passphrase { words, digits, .. } => phrase_entropy_tenths(*words, *digits),
            Kind::Password { len, symbols } => password_entropy_tenths(alphabet_len(*symbols), *len),
        }
    }

    /// The entropy report, e.g.
    /// `entropy: 4 words x 12.9 bits + 2 digits x 3.3 bits = ~58.3 bits`.
    pub fn describe_entropy(&self) -> (r: String)
        ensures
            r@ == description(self.kind@),
    {
        match &self.kind {
            Kind::Passphrase { words, digits, .. } => describe_phrase(*words, *digits),
            Kind::Password { len, symbols } => describe_password(alphabet_len(*symbols), *len),
        }
    }
}

/// Capitalising and the separator add no entropy: two passphrase requests
/// that differ only there have the same number of results, the same
/// entropy in tenths of a bit (what `Opts::entropy_tenths` returns) and
/// the same report.
pub proof fn lemma_styling_adds_no_entropy(
    words: u32,
    digits: u32,
    sep1: Seq<char>,
    sep2: Seq<char>,
    cap1: bool,
    cap2: bool,
)
    ensures
        outcomes(KindView::Passphrase { words, sep: sep1, digits, capitalize: cap1 }) == outcomes(
            KindView::Passphrase { words, sep: sep2, digits, capitalize: cap2 },
        ),
        rounded_log2(outcomes(KindView::Passphrase { words, sep: sep1, digits, capitalize: cap1 }), 10)
            == rounded_log2(
            outcomes(KindView::Passphrase { words, sep: sep2, digits, capitalize: cap2 }),
            10,
        ),
        description(KindView::Passphrase { words, sep: sep1, digits, capitalize: cap1 })
            == description(KindView::Passphrase { words, sep: sep2, digits, capitalize: cap2 }),
{
}

} // verus!
