use quepasa::instance::parse_pid;

#[test]
fn pid_of_plain_digits() {
    assert_eq!(parse_pid("0"), Some(0));
    assert_eq!(parse_pid("7"), Some(7));
    assert_eq!(parse_pid("12345"), Some(12345));
}

#[test]
fn pid_with_a_plus_sign() {
    assert_eq!(parse_pid("+7"), Some(7));
    assert_eq!(parse_pid("+0"), Some(0));
    assert_eq!(parse_pid("++7"), None);
    assert_eq!(parse_pid("7+"), None);
    assert_eq!(parse_pid("+"), None);
}

#[test]
fn pid_with_leading_zeros() {
    assert_eq!(parse_pid("007"), Some(7));
    assert_eq!(parse_pid("00000000000000000042"), Some(42));
}

#[test]
fn pid_at_the_limit() {
    assert_eq!(parse_pid("4294967295"), Some(u32::MAX));
    assert_eq!(parse_pid("4294967296"), None);
    assert_eq!(parse_pid("4294967300"), None);
    assert_eq!(parse_pid("99999999999999999999"), None);
    assert_eq!(parse_pid("+4294967295"), Some(u32::MAX));
}

#[test]
fn pid_of_other_content_is_absent() {
    assert_eq!(parse_pid(""), None);
    assert_eq!(parse_pid("-1"), None);
    assert_eq!(parse_pid("-0"), None);
    assert_eq!(parse_pid("12a"), None);
    assert_eq!(parse_pid("a12"), None);
    assert_eq!(parse_pid("1 2"), None);
    assert_eq!(parse_pid(" 12"), None);
    assert_eq!(parse_pid("12\n"), None);
    assert_eq!(parse_pid("1_000"), None);
    assert_eq!(parse_pid("0x10"), None);
    assert_eq!(parse_pid("١٢٣"), None);
    assert_eq!(parse_pid("99999999999x"), None);
}

#[test]
fn pid_reads_what_the_standard_parser_reads() {
    let inputs = [
        "", "0", "1", "+1", "-1", "+", "-", "++1", "+-1", "10", "0010", "4294967295", "4294967296",
        "42949672950", "+4294967295", "+4294967296", "12 ", " 12", "12\n", "1a", "a1", "1.0", "1e3",
        "١", "65535", "2147483648", "000000000000000000000000000004294967295",
    ];
    for input in inputs {
        assert_eq!(parse_pid(input), input.parse::<u32>().ok(), "for {:?}", input);
    }
}
