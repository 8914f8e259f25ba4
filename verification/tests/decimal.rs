use tsdb::decimal::{parse_version, to_decimal};

#[test]
fn numerals() {
    assert_eq!("0", to_decimal(0));
    assert_eq!("7", to_decimal(7));
    assert_eq!("10", to_decimal(10));
    assert_eq!("1234567890", to_decimal(1234567890));
    assert_eq!(usize::MAX.to_string(), to_decimal(usize::MAX));
}

#[test]
fn numbers() {
    assert_eq!(Some(0), parse_version("0"));
    assert_eq!(Some(7), parse_version("007"));
    assert_eq!(Some(1234567890), parse_version("1234567890"));
    assert_eq!(Some(usize::MAX), parse_version(&usize::MAX.to_string()));
}

#[test]
fn what_is_no_number() {
    assert_eq!(None, parse_version(""));
    assert_eq!(None, parse_version("12a"));
    assert_eq!(None, parse_version("+5"));
    assert_eq!(None, parse_version("-5"));
    assert_eq!(None, parse_version(" 5"));
    assert_eq!(None, parse_version("٣"));
    assert_eq!(None, parse_version("340282366920938463463374607431768211456"));
    let mut beyond = usize::MAX.to_string();
    beyond.push('0');
    assert_eq!(None, parse_version(&beyond));
}

#[test]
fn numerals_read_back() {
    for n in [0usize, 1, 9, 10, 99, 100, 2047, 32768, usize::MAX - 1, usize::MAX] {
        assert_eq!(Some(n), parse_version(&to_decimal(n)));
    }
}
