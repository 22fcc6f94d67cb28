use ascdump::dialect::{detect, is_fd_marker, Dialect, Layout};
use ascdump::number::{accepts_float, digit_of, parse_unsigned};
use ascdump::text::{chars_of, is_whitespace_char, Line};
use std::str::FromStr;

fn chars(s: &str) -> Vec<char> {
    s.chars().collect()
}

fn tokens(source: &str) -> Vec<String> {
    let line = Line::new(source);
    let mut tokens = Vec::new();
    while let Some(text) = line.text(tokens.len()) {
        tokens.push(text);
    }
    assert_eq!(tokens.len(), line.len());
    tokens
}

#[test]
fn whitespace_is_that_of_unicode() {
    for code in 0..=0x10FFFF_u32 {
        if let Some(c) = char::from_u32(code) {
            assert_eq!(is_whitespace_char(c), c.is_whitespace(), "U+{:04X}", code);
        }
    }
}

#[test]
fn chars_of_gives_the_characters() {
    assert_eq!(chars_of(""), Vec::<char>::new());
    assert_eq!(chars_of("a b"), vec!['a', ' ', 'b']);
    assert_eq!(chars_of("é\u{3000}x"), vec!['é', '\u{3000}', 'x']);
}

#[test]
fn tokens_are_the_runs_between_whitespace() {
    assert_eq!(tokens(""), Vec::<String>::new());
    assert_eq!(tokens("   \t "), Vec::<String>::new());
    assert_eq!(tokens("a"), vec!["a"]);
    assert_eq!(tokens("  ab  c\td\r\n"), vec!["ab", "c", "d"]);
    for line in [
        "0.962604 3 368 Rx d 4 cc 55 01 00 Length = 0 BitCount = 0 ID = 872",
        "7.392600 CANFD 1 Rx 6e   1 0 6 6 ec 0a 22 ff ff f1 0 0 3000 0 0 0 0 0",
        " x\u{a0}y\u{2028}z ",
        "é ü",
    ] {
        let expected: Vec<String> = line.split_whitespace().map(String::from).collect();
        assert_eq!(tokens(line), expected);
    }
}

#[test]
fn line_gives_its_tokens_by_position() {
    let line = Line::new(" é\t12  x ");
    assert_eq!(line.source(), " é\t12  x ");
    assert_eq!(line.len(), 3);
    assert_eq!(line.token(0), Some(&['é'][..]));
    assert_eq!(line.token(1), Some(&['1', '2'][..]));
    assert_eq!(line.token(2), Some(&['x'][..]));
    assert_eq!(line.token(3), None);
    assert_eq!(line.token(usize::MAX), None);
    assert_eq!(line.text(0), Some(String::from("é")));
    assert_eq!(line.text(1), Some(String::from("12")));
    assert_eq!(line.text(2), Some(String::from("x")));
    assert_eq!(line.text(3), None);

    let empty = Line::new("");
    assert_eq!(empty.len(), 0);
    assert_eq!(empty.token(0), None);
    assert_eq!(empty.text(0), None);
}

#[test]
fn digits_have_their_values() {
    assert_eq!(digit_of('0', 10), Some(0));
    assert_eq!(digit_of('9', 10), Some(9));
    assert_eq!(digit_of('a', 10), None);
    assert_eq!(digit_of('a', 16), Some(10));
    assert_eq!(digit_of('F', 16), Some(15));
    assert_eq!(digit_of('g', 16), None);
    assert_eq!(digit_of('7', 8), Some(7));
    assert_eq!(digit_of('8', 8), None);
    assert_eq!(digit_of('z', 36), Some(35));
    assert_eq!(digit_of('Z', 36), Some(35));
    assert_eq!(digit_of('z', 35), None);
    assert_eq!(digit_of('0', 0), None);
    assert_eq!(digit_of('z', u32::MAX), Some(35));
    for code in 0..=0x10FFFF_u32 {
        if let Some(c) = char::from_u32(code) {
            for radix in [2, 8, 10, 16, 36] {
                assert_eq!(digit_of(c, radix), c.to_digit(radix));
            }
        }
    }
}

#[test]
fn unsigned_numbers_parse_as_in_std() {
    let samples = [
        "", "+", "-", "0", "7", "+7", "-7", "++7", "007", "255", "256", "0255", "ff", "FF", "fF",
        "100", "1f78c410", "ffffffff", "100000000", "+ffffffff", "4294967295", "4294967296",
        "18446744073709551615", "18446744073709551616", "99999999999999999999999999", "1 ", " 1",
        "1_0", "0x10", "x", "12x", "١٢", "1.0", "000000000000000000000000000000012",
    ];
    for sample in samples {
        let token = chars(sample);
        assert_eq!(
            parse_unsigned(&token, 10, 0xFF),
            u8::from_str(sample).ok().map(u64::from),
            "{:?} as u8",
            sample
        );
        assert_eq!(
            parse_unsigned(&token, 16, 0xFF),
            u8::from_str_radix(sample, 16).ok().map(u64::from),
            "{:?} as hex u8",
            sample
        );
        assert_eq!(
            parse_unsigned(&token, 16, 0xFFFF_FFFF),
            u32::from_str_radix(sample, 16).ok().map(u64::from),
            "{:?} as hex u32",
            sample
        );
        assert_eq!(
            parse_unsigned(&token, 10, u64::MAX),
            u64::from_str(sample).ok(),
            "{:?} as u64",
            sample
        );
        for radix in 2..=36 {
            assert_eq!(
                parse_unsigned(&token, radix, u64::MAX),
                u64::from_str_radix(sample, radix).ok(),
                "{:?} in base {}",
                sample,
                radix
            );
        }
    }
}

#[test]
fn unsigned_numbers_have_exact_values() {
    assert_eq!(parse_unsigned(&chars("368"), 16, 0xFFFF_FFFF), Some(0x368));
    assert_eq!(parse_unsigned(&chars("368"), 10, 0xFFFF_FFFF), Some(368));
    assert_eq!(parse_unsigned(&chars("255"), 10, 255), Some(255));
    assert_eq!(parse_unsigned(&chars("256"), 10, 255), None);
    assert_eq!(parse_unsigned(&chars("18446744073709551615"), 10, u64::MAX), Some(u64::MAX));
    assert_eq!(parse_unsigned(&chars("ffffffffffffffff"), 16, u64::MAX), Some(u64::MAX));
    assert_eq!(parse_unsigned(&chars("10000000000000000"), 16, u64::MAX), None);
    assert_eq!(parse_unsigned(&chars("101"), 2, 7), Some(5));
    assert_eq!(parse_unsigned(&chars("zz"), 36, u64::MAX), Some(35 * 36 + 35));
    assert_eq!(parse_unsigned(&chars("0"), 0, 7), None);
    assert_eq!(parse_unsigned(&chars("000"), 1, 7), Some(0));
    assert_eq!(parse_unsigned(&chars("12"), u32::MAX, u64::MAX), Some(u32::MAX as u64 + 2));
    assert_eq!(parse_unsigned(&chars("5"), 10, 4), None);
    assert_eq!(parse_unsigned(&chars("0"), 10, 0), Some(0));
}

#[test]
fn float_literals_are_those_of_std() {
    let samples = [
        "", "0", "1", "-1", "+1", "1.", ".1", ".", "+.", "-.5", "1.5", "01.50", "1e5", "1E5",
        "1e+5", "1e-5", "1e", "1e+", "e5", ".e5", "1.e5", ".5e5", "1e5.0", "1e5e5", "1.2.3", "--1",
        "+-1", "1-", "inf", "INF", "Inf", "iNf", "+inf", "-inf", "infinity", "INFINITY",
        "-Infinity", "infinit", "infinityy", "in", "nan", "NaN", "NAN", "-nan", "+NaN", "nano",
        "na", "0x10", "1_000", "1,5", " 1", "1 ", "1f", "1.0f32", "١", "1e١", "7.392600",
        "0.962604", "0.9xxxxx", "123456789012345678901234567890", "1e999", "1e-999",
        "000000.000000e000", "+", "-", "e", "E", "ınf", "KNF", "\u{49}\u{4e}\u{46}", "i\u{6e}f ",
        "iNFiNiTy", "inf1n1ty",
    ];
    for sample in samples {
        assert_eq!(
            accepts_float(&chars(sample)),
            f32::from_str(sample).is_ok(),
            "{:?} as f32",
            sample
        );
        assert_eq!(
            accepts_float(&chars(sample)),
            f64::from_str(sample).is_ok(),
            "{:?} as f64",
            sample
        );
    }
}

#[test]
fn float_literals_over_a_small_alphabet() {
    // Every text of up to five characters over the characters that the
    // grammar speaks of, and one that it does not.
    let alphabet = ['0', '7', '.', 'e', 'E', '+', '-', 'x'];
    let mut texts = vec![String::new()];
    let mut from = 0;
    for _ in 0..5 {
        let upto = texts.len();
        for i in from..upto {
            for c in alphabet {
                let mut longer = texts[i].clone();
                longer.push(c);
                texts.push(longer);
            }
        }
        from = upto;
    }
    for sample in texts {
        assert_eq!(accepts_float(&chars(&sample)), f32::from_str(&sample).is_ok(), "{:?}", sample);
    }
}

#[test]
fn special_values_ignore_case_only() {
    // A letter and the character 0x20 below it stand for each other, and
    // nothing else does.
    for word in ["inf", "nan", "infinity"] {
        for at in 0..word.len() {
            for code in 0..=0x2FF_u32 {
                let c = char::from_u32(code).unwrap();
                let sample: String =
                    word.chars().enumerate().map(|(i, w)| if i == at { c } else { w }).collect();
                assert_eq!(
                    accepts_float(&chars(&sample)),
                    f32::from_str(&sample).is_ok(),
                    "{:?}",
                    sample
                );
            }
        }
    }
}

#[test]
fn fd_marker_is_one_exact_token() {
    assert!(is_fd_marker(&chars("CANFD")));
    for other in ["", "CAN", "CANFDx", "xCANFD", "canfd", "CANFd", "CAN FD"] {
        assert!(!is_fd_marker(&chars(other)), "{:?}", other);
    }
}

#[test]
fn dialect_is_found_among_the_tokens() {
    for (line, dialect) in [
        ("", Dialect::Classic),
        ("0.5 1 2 Rx d 0", Dialect::Classic),
        ("0.5 CANFD 1 Rx 2 1 0 0 0", Dialect::CanFd),
        ("CANFD", Dialect::CanFd),
        ("a b c CANFD", Dialect::CanFd),
        ("a bCANFD c", Dialect::Classic),
    ] {
        assert_eq!(detect(&Line::new(line)), dialect, "{:?}", line);
    }
}

#[test]
fn layouts_give_the_field_positions() {
    assert_eq!(Dialect::Classic.offsets(), Layout { bus_id: 1, id: 2, length: 5, payload: 6 });
    assert_eq!(Dialect::CanFd.offsets(), Layout { bus_id: 2, id: 4, length: 8, payload: 9 });
}
