use ppgen::args::{parse_args, parse_num, take_value};
use ppgen::bignat::{log2_floor_of_powers, mul_small, one};
use ppgen::entropy::{length_for_bits, rounded_log2_of_powers, WORD_BITS_E18};
use ppgen::generate::{
    accept_draw, alphabet, assemble_passphrase, assemble_password, generate, next_draw, Draw,
    validate_wordlist,
};
use ppgen::opts::{Command, Kind, Opts};
use ppgen::text::{parse_u32, push_decimal, push_fixed_point, push_zero_padded, str_eq};

fn argv(v: &[&str]) -> Vec<String> {
    v.iter().map(|s| s.to_string()).collect()
}

fn err(v: &[&str]) -> String {
    match parse_args(&argv(v)) {
        Err(m) => m,
        Ok(_) => panic!("expected an error for {v:?}"),
    }
}

fn parsed(v: &[&str]) -> Opts {
    match parse_args(&argv(v)) {
        Ok(Command::Generate(o)) => o,
        _ => panic!("expected Generate for {v:?}"),
    }
}

#[test]
fn error_messages_name_the_option() {
    assert_eq!(err(&["-w", "100"]), "-w must be 1..=64, got 100");
    assert_eq!(err(&["--words", "0"]), "--words must be 1..=64, got 0");
    assert_eq!(err(&["-w"]), "missing value for -w");
    assert_eq!(err(&["-d"]), "missing value for -d");
    assert_eq!(err(&["-w", "x"]), "-w expects a number, got 'x'");
    assert_eq!(err(&["-n", "9"]), "-n must be 0..=8, got 9");
    assert_eq!(err(&["--nope"]), "unknown option '--nope'");
    assert_eq!(err(&["-b", "0"]), "-b must be positive");
    assert_eq!(err(&["-p", "257"]), "-p must be 1..=256, got 257");
    assert_eq!(err(&["-p", "+0300"]), "-p must be 1..=256, got 300");
    assert_eq!(err(&["--symbols"]), "--symbols requires -p");
    assert_eq!(
        err(&["-p", "-w", "5"]),
        "-w applies to passphrases and cannot be combined with -p"
    );
    assert_eq!(
        err(&["-c", "-d", "/", "-p"]),
        "-c applies to passphrases and cannot be combined with -p"
    );
    assert_eq!(err(&["-p", "20", "-b", "80"]), "-p N and -b cannot be combined");
    assert_eq!(err(&["-b", "80", "-w", "5"]), "-w and -b cannot be combined");
}

#[test]
fn refused_bits_report_the_length_needed() {
    assert_eq!(err(&["-b", "900"]), "-b 900 needs 70 words, max is 64");
    assert_eq!(err(&["-n", "4", "-b", "900"]), "-b 887 needs 69 words, max is 64");
    assert_eq!(err(&["-p", "-b", "2000"]), "-b 2000 needs 336 chars, max is 256");
    assert_eq!(err(&["-p", "--symbols", "-b", "2000"]), "-b 2000 needs 310 chars, max is 256");
}

#[test]
fn bits_boundaries_are_exact() {
    // 64 words carry 827.19 bits, 8 digits 26.58 more
    assert!(parse_args(&argv(&["-b", "827"])).is_ok());
    assert!(parse_args(&argv(&["-b", "828"])).is_err());
    assert!(parse_args(&argv(&["-n", "8", "-b", "853"])).is_ok());
    assert!(parse_args(&argv(&["-n", "8", "-b", "854"])).is_err());
    // 256 characters of 62 carry 1524.27 bits
    assert!(parse_args(&argv(&["-p", "-b", "1524"])).is_ok());
    assert!(parse_args(&argv(&["-p", "-b", "1525"])).is_err());
}

#[test]
fn help_wins_over_later_errors_only() {
    assert!(matches!(parse_args(&argv(&["--help", "--nope"])), Ok(Command::Help)));
    assert!(parse_args(&argv(&["--nope", "--help"])).is_err());
    assert!(matches!(parse_args(&argv(&["--symbols", "-h"])), Ok(Command::Help)));
}

#[test]
fn numbers_parse_like_u32_from_str() {
    assert_eq!(parse_u32("42"), Some(42));
    assert_eq!(parse_u32("+7"), Some(7));
    assert_eq!(parse_u32("0004294967295"), Some(4294967295));
    assert_eq!(parse_u32("4294967296"), None);
    assert_eq!(parse_u32("99999999999999999999"), None);
    assert_eq!(parse_u32(""), None);
    assert_eq!(parse_u32("+"), None);
    assert_eq!(parse_u32("-1"), None);
    assert_eq!(parse_u32("1 "), None);
    assert_eq!(parse_u32("١"), None);
    assert_eq!(parse_u32("++1"), None);
    let o = parsed(&["-w", "+3"]);
    assert!(matches!(o.kind, Kind::Passphrase { words: 3, .. }));
}

#[test]
fn describes_entropy() {
    assert_eq!(
        parsed(&["-w", "4", "-n", "2"]).describe_entropy(),
        "entropy: 4 words x 12.9 bits + 2 digits x 3.3 bits = ~58.3 bits"
    );
    assert_eq!(
        parsed(&[]).describe_entropy(),
        "entropy: 5 words x 12.9 bits + 0 digits x 3.3 bits = ~64.6 bits"
    );
    assert_eq!(
        parsed(&["-p", "40", "--symbols"]).describe_entropy(),
        "entropy: 40 chars x 6.46 bits = ~258.4 bits"
    );
    assert_eq!(
        parsed(&["-p"]).describe_entropy(),
        "entropy: 16 chars x 5.95 bits = ~95.3 bits"
    );
    assert!(parsed(&["-b", "80", "-v"]).describe_entropy().starts_with("entropy: 7 words"));
}

#[test]
fn capitalizing_adds_no_entropy() {
    assert_eq!(parsed(&["-c", "-d", "."]).describe_entropy(), parsed(&[]).describe_entropy());
    assert_eq!(parsed(&["-c"]).entropy_tenths(), parsed(&[]).entropy_tenths());
}

#[test]
fn rounded_logarithms() {
    assert_eq!(rounded_log2_of_powers(7776, 1, 1, 0, 10), 129);
    assert_eq!(rounded_log2_of_powers(62, 1, 1, 0, 100), 595);
    assert_eq!(rounded_log2_of_powers(88, 1, 1, 0, 100), 646);
    assert_eq!(rounded_log2_of_powers(10, 4, 1, 0, 1), 13);
    assert_eq!(rounded_log2_of_powers(2, 10, 1, 0, 1), 10);
    assert_eq!(log2_floor_of_powers(2, 10, 1, 0), 10);
    assert_eq!(log2_floor_of_powers(3, 1, 1, 0), 1);
    assert_eq!(log2_floor_of_powers(7776, 64, 10, 8), 853);
    assert_eq!(log2_floor_of_powers(1, 5, 1, 5), 0);
}

#[test]
fn big_numbers_multiply() {
    let mut x = one();
    for _ in 0..3 {
        x = mul_small(&x, 4294967295);
    }
    // (2^32 - 1)^3 = 2^96 - 3*2^64 + 3*2^32 - 1
    assert_eq!(x, vec![4294967295, 2, 4294967293]);
}

#[test]
fn length_for_bits_finds_the_least_count() {
    assert_eq!(length_for_bits(7776, WORD_BITS_E18, 0, 13, 64, "words"), Ok(2));
    assert_eq!(length_for_bits(7776, WORD_BITS_E18, 0, 12, 64, "words"), Ok(1));
    assert_eq!(length_for_bits(7776, WORD_BITS_E18, 2, 19, 64, "words"), Ok(1));
    assert_eq!(length_for_bits(7776, WORD_BITS_E18, 2, 20, 64, "words"), Ok(2));
    assert_eq!(
        length_for_bits(7776, WORD_BITS_E18, 0, 40, 3, "words"),
        Err("-b 40 needs 4 words, max is 3".to_string())
    );
}

#[test]
fn draws_above_the_last_full_run_are_rejected() {
    // 2^64 - 1 = 6 * 3074457345618258602 + 3
    assert_eq!(accept_draw(18446744073709551611, 6), Some(18446744073709551611 % 6));
    assert_eq!(accept_draw(18446744073709551612, 6), None);
    assert_eq!(accept_draw(u64::MAX, 6), None);
    assert_eq!(accept_draw(17, 6), Some(5));
    assert_eq!(accept_draw(u64::MAX, 1), None);
    assert_eq!(accept_draw(u64::MAX - 1, 1), Some(0));
    assert_eq!(accept_draw(u64::MAX - 1, 2), None);
    assert_eq!(accept_draw(u64::MAX - 2, 2), Some(1));
    assert_eq!(accept_draw(u64::MAX, 2), None);
}

#[test]
fn wordlist_size_is_checked() {
    let words = vec!["a"; 7776];
    assert_eq!(validate_wordlist(&words), Ok(()));
    assert_eq!(
        validate_wordlist(&words[..7775]),
        Err("embedded wordlist is corrupt (7775 words, expected 7776)".to_string())
    );
}

#[test]
fn passphrase_has_its_shape() {
    let list = ["yo-yo", "apple", "zebra"];
    for _ in 0..50 {
        let o = parsed(&["-w", "6", "-d", "/", "-n", "3"]);
        let pw = generate(&o, &list).unwrap();
        let (words, digits) = pw.split_at(pw.len() - 3);
        assert!(digits.chars().all(|c| c.is_ascii_digit()), "{pw:?}");
        let parts: Vec<&str> = words.split('/').collect();
        assert_eq!(parts.len(), 6, "{pw:?}");
        assert!(parts.iter().all(|w| list.contains(w)), "{pw:?}");
    }
    let o = parsed(&["-w", "1", "-c"]);
    let pw = generate(&o, &["élan"]).unwrap();
    assert_eq!(pw, "élan");
}

#[test]
fn zero_length_password_is_empty() {
    let o = Opts { kind: Kind::Password { len: 0, symbols: true }, verbose: false };
    assert_eq!(generate(&o, &[]).unwrap(), "");
    assert_eq!(o.describe_entropy(), "entropy: 0 chars x 6.46 bits = ~0.0 bits");
}

#[test]
fn numbers_render_in_decimal() {
    let mut s = String::new();
    push_decimal(&mut s, 0);
    s.push(' ');
    push_decimal(&mut s, 18446744073709551615);
    s.push(' ');
    push_zero_padded(&mut s, 7, 3);
    s.push(' ');
    push_fixed_point(&mut s, 5, 1);
    s.push(' ');
    push_fixed_point(&mut s, 1034, 1);
    s.push(' ');
    push_fixed_point(&mut s, 646, 2);
    assert_eq!(s, "0 18446744073709551615 007 0.5 103.4 6.46");
    assert!(str_eq("-w", "-w"));
    assert!(!str_eq("-w", "-W"));
    assert!(!str_eq("-w", "-wx"));
}

#[test]
fn assembling_is_deterministic() {
    assert_eq!(
        assemble_passphrase(&["alpha", "beta"], &vec![1, 0, 1], "-", true, 3, 7),
        "Beta-Alpha-Beta007"
    );
    assert_eq!(
        assemble_passphrase(&["alpha", "beta"], &vec![0], " :: ", false, 0, 0),
        "alpha"
    );
    assert_eq!(assemble_passphrase(&["x"], &vec![], "-", false, 2, 5), "05");
    assert_eq!(assemble_password(&alphabet(false), &vec![0, 61, 26]), "A9a");
    assert_eq!(assemble_password(&alphabet(true), &vec![62, 87]), "!/");
}

#[test]
fn take_value_and_parse_num() {
    let a = argv(&["-w", "7"]);
    assert_eq!(take_value(&a, 1, "-w"), Ok("7"));
    assert_eq!(take_value(&a, 2, "-w"), Err("missing value for -w".to_string()));
    assert_eq!(parse_num("-n", "7"), Ok(7));
    assert_eq!(parse_num("-n", "7x"), Err("-n expects a number, got '7x'".to_string()));
}

#[test]
fn requests_without_draws_succeed() {
    let o = Opts {
        kind: Kind::Passphrase { words: 0, sep: "-".to_string(), digits: 0, capitalize: true },
        verbose: false,
    };
    assert_eq!(generate(&o, &["a"]).unwrap(), "");
}

#[test]
fn refused_bits_far_beyond_the_limit() {
    assert_eq!(err(&["-b", "65536"]), "-b 65536 needs 5071 words, max is 64");
    assert_eq!(err(&["-b", "65537"]), "-b 65537 needs 5071 words, max is 64");
    assert_eq!(err(&["-b", "4294967295"]), "-b 4294967295 needs 332304032 words, max is 64");
    assert_eq!(
        err(&["-p", "-b", "4294967295"]),
        "-b 4294967295 needs 721334513 chars, max is 256"
    );
}

#[test]
fn draws_are_handled_one_by_one() {
    assert!(matches!(next_draw(Ok(17), 6, 0), Draw::Value(5)));
    assert!(matches!(next_draw(Ok(u64::MAX), 6, 0), Draw::Again));
    assert!(matches!(next_draw(Ok(u64::MAX), 6, 62), Draw::Again));
    assert!(matches!(next_draw(Ok(u64::MAX), 6, 63), Draw::GiveUp));
    assert!(matches!(next_draw(Ok(18446744073709551611), 6, 63), Draw::Value(5)));
    assert!(matches!(
        next_draw(Err(getrandom::Error::UNSUPPORTED), 6, 0),
        Draw::Failed(e) if e == getrandom::Error::UNSUPPORTED
    ));
}

#[test]
fn empty_list_serves_a_phrase_of_digits_only() {
    let o = Opts {
        kind: Kind::Passphrase { words: 0, sep: "-".to_string(), digits: 3, capitalize: false },
        verbose: false,
    };
    let pw = generate(&o, &[]).unwrap();
    assert_eq!(pw.len(), 3);
    assert!(pw.chars().all(|c| c.is_ascii_digit()));
}

#[test]
fn counts_beyond_the_command_line_limits() {
    assert_eq!(length_for_bits(7776, WORD_BITS_E18, 0, 13, 5000, "words"), Ok(2));
    assert_eq!(length_for_bits(62, 1, 0, 7000, 2000, "chars"), Ok(1176));
    let o = Opts { kind: Kind::Password { len: 300, symbols: false }, verbose: false };
    assert_eq!(o.describe_entropy(), "entropy: 300 chars x 5.95 bits = ~1786.3 bits");
}
