use ppgen::args::parse_args;
use ppgen::generate::{alphabet, generate, uniform};
use ppgen::opts::{Command, Kind, Opts, DEFAULT_PASSWORD_LEN, DEFAULT_WORDS};
use ppgen::text::capitalize;

const ALNUM: &[u8] = b"ABCDEFGHIJKLMNOPQRSTUVWXYZabcdefghijklmnopqrstuvwxyz0123456789";
const SYMBOLS: &[u8] = b"!@#$%^&*()-_=+[]{};:,.<>?/";

fn args(v: &[&str]) -> Vec<String> {
    v.iter().map(|s| s.to_string()).collect()
}

fn opts(v: &[&str]) -> Opts {
    match parse_args(&args(v)) {
        Ok(Command::Generate(o)) => o,
        _ => panic!("expected Generate for {v:?}"),
    }
}

fn phrase(v: &[&str]) -> (u32, String, u32, bool) {
    match opts(v).kind {
        Kind::Passphrase {
            words,
            sep,
            digits,
            capitalize,
        } => (words, sep, digits, capitalize),
        Kind::Password { .. } => panic!("expected Passphrase for {v:?}"),
    }
}

fn password(v: &[&str]) -> (u32, bool) {
    match opts(v).kind {
        Kind::Password { len, symbols } => (len, symbols),
        Kind::Passphrase { .. } => panic!("expected Password for {v:?}"),
    }
}

#[test]
fn alphabets_have_no_duplicates() {
    for symbols in [false, true] {
        let mut a = alphabet(symbols);
        let n = a.len();
        a.sort_unstable();
        a.dedup();
        assert_eq!(a.len(), n);
        assert!(a.iter().all(|c| c.is_ascii_graphic()));
    }
    assert_eq!(alphabet(false).len(), 62);
    assert_eq!(alphabet(true).len(), 88);
}

#[test]
fn uniform_stays_in_range() {
    for &n in &[2u64, 3, 6, 10, 62, 88, 1000, 4096, 7776] {
        for _ in 0..1000 {
            assert!(uniform(n).unwrap() < n);
        }
    }
}

#[test]
fn uniform_is_roughly_even() {
    let n = 6u64;
    let mut bins = [0u32; 6];
    for _ in 0..60_000 {
        bins[uniform(n).unwrap() as usize] += 1;
    }
    for &count in &bins {
        assert!((9000..11000).contains(&count), "biased bins: {bins:?}");
    }
}

#[test]
fn digits_are_zero_padded() {
    let words: Vec<&str> = vec!["abacus", "abdomen"];
    let o = opts(&["-w", "2", "-n", "2"]);
    let pw = generate(&o, &words).unwrap();
    // the number is always the last `digits` chars (list contains hyphenated words)
    let suffix = &pw[pw.len() - 2..];
    assert!(suffix.chars().all(|c| c.is_ascii_digit()));
}

#[test]
fn capitalize_touches_only_the_first_letter() {
    assert_eq!(capitalize("gusto"), "Gusto");
    assert_eq!(capitalize("yo-yo"), "Yo-yo");
    assert_eq!(capitalize(""), "");
    let words = ["alpha", "beta"];
    let o = opts(&["-w", "3", "-c", "-d", " "]);
    let pw = generate(&o, &words).unwrap();
    for w in pw.split(' ') {
        assert!(w == "Alpha" || w == "Beta", "{pw:?}");
    }
}

#[test]
fn password_uses_only_its_alphabet() {
    let o = opts(&["-p", "200"]);
    let pw = generate(&o, &[]).unwrap();
    assert_eq!(pw.len(), 200);
    assert!(pw.bytes().all(|b| ALNUM.contains(&b)), "{pw:?}");

    let o = opts(&["-p", "200", "--symbols"]);
    let pw = generate(&o, &[]).unwrap();
    assert_eq!(pw.len(), 200);
    assert!(
        pw.bytes()
            .all(|b| ALNUM.contains(&b) || SYMBOLS.contains(&b)),
        "{pw:?}"
    );
    // 200 draws from 88 symbols: P(no symbol at all) = (62/88)^200 ~ 1e-31
    assert!(pw.bytes().any(|b| SYMBOLS.contains(&b)), "{pw:?}");
}

#[test]
fn entropy_estimate() {
    // tenths of a bit, rounded to the nearest
    assert_eq!(opts(&[]).entropy_tenths(), 646);
    assert_eq!(opts(&["-w", "4", "-n", "2"]).entropy_tenths(), 583);
    assert_eq!(opts(&["-c"]).entropy_tenths(), 646); // capitalize adds nothing
    assert_eq!(opts(&["-p"]).entropy_tenths(), 953);
    assert_eq!(opts(&["-p", "--symbols"]).entropy_tenths(), 1034);
    assert_eq!(opts(&["-p", "10"]).entropy_tenths(), 595);
}

#[test]
fn bits_picks_the_length() {
    assert_eq!(phrase(&["-b", "1"]).0, 1);
    assert_eq!(phrase(&["-b", "64"]).0, 5);
    assert_eq!(phrase(&["-b", "65"]).0, 6);
    assert_eq!(phrase(&["-b", "80"]).0, 7);
    assert_eq!(phrase(&["-b", "80", "-n", "4"]).0, 6);
    assert_eq!(phrase(&["-n", "8", "-b", "20"]).0, 1); // digits alone would do
    assert!(opts(&["-b", "80"]).entropy_tenths() >= 800);

    assert_eq!(password(&["-p", "-b", "80"]).0, 14);
    assert_eq!(password(&["-p", "--symbols", "-b", "80"]).0, 13);
    assert_eq!(password(&["-b", "1", "-p"]).0, 1);
    assert!(opts(&["-p", "-b", "128"]).entropy_tenths() >= 1280);

    for bad in [
        &["-b", "0"][..],
        &["-b", "900"],
        &["-b", "80", "-w", "5"],
        &["-p", "20", "-b", "80"],
        &["-p", "-b", "2000"],
    ] {
        assert!(parse_args(&args(bad)).is_err(), "{bad:?}");
    }
}

#[test]
fn parses_passphrase_options() {
    assert_eq!(phrase(&[]), (DEFAULT_WORDS, "-".to_string(), 0, false));
    assert_eq!(
        phrase(&["-w", "3", "-d", "+", "-n", "2", "-c"]),
        (3, "+".to_string(), 2, true)
    );
    assert!(!opts(&[]).verbose);
    assert!(opts(&["-v"]).verbose);
}

#[test]
fn parses_password_options() {
    assert_eq!(password(&["-p"]), (DEFAULT_PASSWORD_LEN, false));
    assert_eq!(password(&["-p", "20"]), (20, false));
    assert_eq!(
        password(&["--password", "--symbols"]),
        (DEFAULT_PASSWORD_LEN, true)
    );
    assert_eq!(password(&["-p", "-v"]), (DEFAULT_PASSWORD_LEN, false)); // -v is not a length
    assert!(opts(&["-p", "-v"]).verbose);

    for bad in [
        &["-p", "0"][..],
        &["-p", "257"],
        &["--symbols"],
        &["-p", "-w", "5"],
        &["-p", "-d", "/"],
        &["-p", "-n", "2"],
        &["-p", "-c"],
        &["-c", "-p"],
    ] {
        assert!(parse_args(&args(bad)).is_err(), "{bad:?}");
    }
}

#[test]
fn help_is_not_an_error() {
    assert!(matches!(parse_args(&args(&["-h"])), Ok(Command::Help)));
    assert!(matches!(
        parse_args(&args(&["-w", "3", "--help"])),
        Ok(Command::Help)
    ));
}

#[test]
fn rejects_bad_options() {
    assert!(parse_args(&args(&["-w", "0"])).is_err());
    assert!(parse_args(&args(&["-w", "100"])).is_err());
    assert!(parse_args(&args(&["-w", "x"])).is_err());
    assert!(parse_args(&args(&["-n", "9"])).is_err());
    assert!(parse_args(&args(&["-w"])).is_err());
    assert!(parse_args(&args(&["--nope"])).is_err());
}
