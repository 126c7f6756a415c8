use metric_proxy::numfmt::{parse_u64, u64_to_dec};
use metric_proxy::strutil::{after_last_occ, contains_char, find_char, find_sub};

#[test]
fn decimal_rendering() {
    assert_eq!(u64_to_dec(0), "0");
    assert_eq!(u64_to_dec(7), "7");
    assert_eq!(u64_to_dec(1234567890123), "1234567890123");
    assert_eq!(u64_to_dec(u64::MAX), "18446744073709551615");
}

#[test]
fn decimal_parsing() {
    assert_eq!(parse_u64("0").unwrap(), 0);
    assert_eq!(parse_u64("00042").unwrap(), 42);
    assert_eq!(parse_u64("18446744073709551615").unwrap(), u64::MAX);
    assert!(parse_u64("").is_err());
    assert!(parse_u64("12a").is_err());
    assert!(parse_u64("-3").is_err());
    // One past the largest value no longer fits.
    assert!(parse_u64("18446744073709551616").is_err());
}

#[test]
fn parsing_inverts_rendering() {
    for n in [0u64, 1, 9, 10, 99, 1000, 123456789, u64::MAX] {
        assert_eq!(parse_u64(u64_to_dec(n).as_str()).unwrap(), n);
    }
}

#[test]
fn character_search() {
    assert_eq!(find_char("abcb", 'b'), 1);
    assert_eq!(find_char("abc", 'z'), 3);
    assert!(contains_char("abc", 'c'));
    assert!(!contains_char("abc", 'z'));
    assert_eq!(after_last_occ("a/b/c", '/'), 4);
    assert_eq!(after_last_occ("abc", '/'), 0);
}

#[test]
fn substring_search() {
    assert_eq!(find_sub("ab___cd", "___"), 2);
    assert_eq!(find_sub("abcd", "___"), 4);
    assert_eq!(find_sub("___", "___"), 0);
    assert_eq!(find_sub("ab", "___"), 2);
}
