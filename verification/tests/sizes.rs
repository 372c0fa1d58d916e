use fdu::double::decimal_bytes;
use fdu::sizes::{bytes_of_number, bytes_of_size, parse_size};

#[test]
fn parse_size_megabytes() {
    assert_eq!(parse_size("100MB").unwrap(), 100 * (1u64 << 20));
}

#[test]
fn parse_size_gigabytes() {
    assert_eq!(parse_size("1GB").unwrap(), 1u64 << 30);
}

#[test]
fn parse_size_kilobytes() {
    assert_eq!(parse_size("500KB").unwrap(), 500 * (1u64 << 10));
}

#[test]
fn parse_size_terabytes() {
    assert_eq!(parse_size("2TB").unwrap(), 2 * (1u64 << 40));
}

#[test]
fn parse_size_bytes_suffix() {
    assert_eq!(parse_size("1024B").unwrap(), 1024);
}

#[test]
fn parse_size_no_suffix() {
    assert_eq!(parse_size("1024").unwrap(), 1024);
}

#[test]
fn parse_size_invalid() {
    assert!(parse_size("abc").is_err());
}

/// The bytes by floating point arithmetic.
fn by_float(num: &str, shift: u32) -> Option<u64> {
    let n: f64 = num.parse().ok()?;
    Some((n * (1u64 << shift) as f64) as u64)
}

#[test]
fn sizes_agree_with_floating_point() {
    let numbers = [
        "0", "1", "1.5", ".5", "5.", "0.1", "1e3", "1E3", "+7", "-7", "-0", "1e-3", "1e+2", "inf", "-inf",
        "infinity", "+Infinity", "nan", "-NaN", "9007199254740991", "9007199254740992",
        "9007199254740993", "9007199254740994", "9007199254740995", "9007199254740997",
        "18014398509481985", "18014398509481986", "18014398509481987", "18014398509481990",
        "18446744073709551615", "18446744073709551616", "18446744073709549568",
        "18446744073709550591", "18446744073709550592", "18446744073709550593",
        "99999999999999999999", "100000000000000000000", "1e21", "1e22", "1e308", "1e309", "1e400",
        "1e99999999999999999999999999999", "1e-99999999999999999999999999999",
        "0e99999999999999999999999999999", "0.99999999999999999999999999",
        "0.99999999999999994448884876874", "0.99999999999999994448884876875",
        "0.000000000000000000000000000001", "1e-12", "9.094947017729282379150390625e-13",
        "9.0949470177292823e-13", "9.09494701772928e-13", "123456789.987654321",
        "4503599627370496.5", "4503599627370497.5", "4503599627370496.50000000000000000001",
        "2251799813685248.25", "2251799813685248.75", "00000000000000000000000000000001.5",
        "3.14159265358979323846264338327950288", "0.3", "0.7", "1023.9999999999999999",
        "1e-21", "1e-22", "1e-23", "5e-324", "1e-400", "179769313486231580793e289",
    ];
    for num in numbers {
        for (unit, shift) in [("", 0), ("B", 0), ("KB", 10), ("MB", 20), ("GB", 30), ("TB", 40), ("tb", 40)] {
            let text = format!(" {}{} ", num, unit);
            assert_eq!(parse_size(&text).ok(), by_float(num, shift), "{}", text);
        }
    }
}

#[test]
fn many_sizes_agree_with_floating_point() {
    let mut seed: u64 = 0x9e37_79b9_7f4a_7c15;
    for round in 0..4000u64 {
        seed = seed.wrapping_mul(6364136223846793005).wrapping_add(1442695040888963407);
        let a = seed >> (round % 64);
        seed = seed.wrapping_mul(6364136223846793005).wrapping_add(1442695040888963407);
        let b = seed >> ((round / 3) % 64);
        let e = (seed >> 33) as i64 % 30 - 15;
        for (num, shift) in [
            (format!("{}", a), 10),
            (format!("{}.{}", a, b), 0),
            (format!("0.{:020}", b), 40),
            (format!("{}.{}E{}", a, b, e), 30),
            (format!(".{}e{}", a, e), 20),
        ] {
            assert_eq!(bytes_of_number(&num.to_uppercase(), shift), by_float(&num, shift), "{}", num);
        }
    }
}

#[test]
fn texts_that_are_no_size() {
    for text in [
        "", " ", "B", "KB", ".", "+", "-", "E5", "1E", "1E+", "1EB", "1.2.3", "1 2", "--1", "+-1", "0x10", "1_000",
        "1,5", "INFI", "NA", "12K", "1e5.5", "1PB x", "١",
    ] {
        assert!(parse_size(text).is_err(), "{}", text);
    }
}

#[test]
fn the_message_quotes_the_size_in_upper_case() {
    assert_eq!(parse_size("  abc mb ").unwrap_err(), "Invalid size: ABC MB");
    assert_eq!(parse_size("straße").unwrap_err(), "Invalid size: STRASSE");
}

#[test]
fn white_space_and_case_make_no_difference() {
    for text in ["10mb", " 10MB", "10 Mb\t", "\u{3000}10\u{a0}MB\n"] {
        assert_eq!(parse_size(text), Ok(10 << 20));
    }
    assert_eq!(bytes_of_size("10 MB"), Some(10 << 20));
    // The dotless i is an I in upper case.
    assert_eq!(parse_size("ınf"), Ok(u64::MAX));
}

#[test]
fn whole_sizes_are_exact() {
    let largest: u64 = 1 << 53;
    for n in [0, 1, 999, largest - 1, largest] {
        assert_eq!(parse_size(&format!("{}", n)), Ok(n));
        assert_eq!(parse_size(&format!("{}KB", n)), Ok(n << 10));
    }
    assert_eq!(parse_size("16777216TB"), Ok(u64::MAX));
    assert_eq!(parse_size("16777215TB"), Ok(16777215 << 40));
}

#[test]
fn digits_and_a_power_of_ten() {
    assert_eq!(decimal_bytes(&vec![0, 1, 5], -1, 10), 1536);
    assert_eq!(decimal_bytes(&vec![2], 3, 0), 2000);
    assert_eq!(decimal_bytes(&vec![], 3, 0), 0);
    assert_eq!(decimal_bytes(&vec![1], 30, 0), u64::MAX);
    assert_eq!(decimal_bytes(&vec![1], -30, 40), 0);
}

#[test]
fn whole_sizes_are_exact_however_they_are_written() {
    for (unit, shift) in [("", 0), ("b", 0), ("Kb", 10), ("mB", 20), ("gb", 30), ("TB", 40)] {
        for before in ["", " ", "\u{2003}\t"] {
            for between in ["", " ", "\t \n", "\u{a0}", "\u{1680}\u{2028}\u{3000}"] {
                let text = format!("{}12345{}{}{}", before, between, unit, before);
                assert_eq!(parse_size(&text), Ok(12345 << shift), "{:?}", text);
            }
        }
    }
    assert_eq!(parse_size("1.5 kb"), parse_size("1.5KB"));
}

#[test]
fn upper_case_leaves_white_space_alone() {
    let blanks = [
        '\u{9}', '\u{a}', '\u{b}', '\u{c}', '\u{d}', '\u{20}', '\u{85}', '\u{a0}', '\u{1680}', '\u{2000}',
        '\u{2001}', '\u{2002}', '\u{2003}', '\u{2004}', '\u{2005}', '\u{2006}', '\u{2007}', '\u{2008}',
        '\u{2009}', '\u{200a}', '\u{2028}', '\u{2029}', '\u{202f}', '\u{205f}', '\u{3000}',
    ];
    for blank in blanks {
        assert_eq!(parse_size(&format!("3{}kb", blank)), Ok(3 << 10), "{:?}", blank);
        let message = format!("Invalid size: X{}Y", blank);
        assert_eq!(parse_size(&format!("x{}y", blank)).unwrap_err(), message);
    }
}
