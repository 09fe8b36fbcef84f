use find_empty_folders::cli::{min_file_size, parse_decimal_usize, parse_usize, validate_flags, ParseErrorKind};
use find_empty_folders::text::u64_to_decimal;

#[test]
fn both_searches_at_once_are_refused() {
    assert_eq!(
        validate_flags(true, true),
        Err("Please choose one of the two flags --emptydirs OR --dupfiles 0".to_string())
    );
    assert_eq!(validate_flags(true, false), Ok(()));
    assert_eq!(validate_flags(false, true), Ok(()));
    assert_eq!(validate_flags(false, false), Ok(()));
}

#[test]
fn minimum_size_is_in_megabytes() {
    assert_eq!(min_file_size(Some(5)), 5 * 1024 * 1024);
    assert_eq!(min_file_size(Some(0)), 0);
}

#[test]
fn parse_decimal_matches_std() {
    for s in ["0", "5", "+25", "007", "18446744073709551615", "", "+", "-", "-5", "12a", "1 ", "a1",
        "18446744073709551616", "99999999999999999999x", "x99999999999999999999", "٣"] {
        let ours = parse_decimal_usize(s);
        let std = s.parse::<usize>();
        match (ours, std) {
            (Ok(a), Ok(b)) => assert_eq!(a, b, "{:?}", s),
            (Err(e), Err(f)) => {
                let msg = match e {
                    ParseErrorKind::Empty => "cannot parse integer from empty string",
                    ParseErrorKind::InvalidDigit => "invalid digit found in string",
                    ParseErrorKind::PosOverflow => "number too large to fit in target type",
                };
                assert_eq!(msg, f.to_string(), "{:?}", s);
            }
            (a, b) => panic!("{:?}: {:?} vs {:?}", s, a, b),
        }
    }
}

#[test]
fn parse_usize_option_values() {
    assert_eq!(parse_usize(None, "dup_minsize"), Ok(None));
    assert_eq!(parse_usize(Some("25"), "dup_minsize"), Ok(Some(25)));
    assert_eq!(
        parse_usize(Some("2x"), "dup_minsize"),
        Err("failed to parse --dup_minsize as a number: invalid digit found in string".to_string())
    );
    assert_eq!(
        parse_usize(Some(""), "dup_minsize"),
        Err("failed to parse --dup_minsize as a number: cannot parse integer from empty string".to_string())
    );
    assert_eq!(
        parse_usize(Some("99999999999999999999"), "dup_minsize"),
        Err("failed to parse --dup_minsize as a number: number too large to fit in target type".to_string())
    );
}

#[test]
fn decimal_text_of_counts() {
    assert_eq!(u64_to_decimal(0), "0");
    assert_eq!(u64_to_decimal(7), "7");
    assert_eq!(u64_to_decimal(1244), "1244");
    assert_eq!(u64_to_decimal(u64::MAX), u64::MAX.to_string());
}

#[test]
fn decimal_text_reads_back() {
    for n in [0usize, 9, 10, 552636, usize::MAX] {
        let text = u64_to_decimal(n as u64);
        assert_eq!(parse_decimal_usize(&text), Ok(n));
    }
}
