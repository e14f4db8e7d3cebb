use aggregator::path::{PathParseError, PrefixPath};
use aggregator::prefix::Ipv6Prefix;
use ipnet::Ipv6Net;

fn net(input: &str) -> Ipv6Prefix {
    let parsed: Ipv6Net = input.parse().expect(input);
    Ipv6Prefix { addr: u128::from(parsed.addr()), len: parsed.prefix_len() }
}

fn doc_prefix() -> String {
    let zero_nibble: &str = ".0.0.0.0";
    format!("200.0.0.0.1{}.1.1.0.1.1.0.1.1.1.0.0.0{}", zero_nibble, zero_nibble.repeat(8))
}

fn formatted(input: &str) -> String {
    PrefixPath::from(net(input)).to_path_string()
}

fn check_display_longest() {
    assert_eq!(formatted("2001:db8::/64"), doc_prefix());
}

fn check_display_too_long() {
    assert_eq!(formatted("2001:db8::/128"), doc_prefix());
}

fn check_display_shortest() {
    assert_eq!(formatted("2047::/12"), "204");
}

fn check_display_too_short() {
    // the '4' is cut off due to /3
    assert_eq!(formatted("2047::/3"), "200");
}

fn check_display_in_between() {
    assert_eq!(formatted("2047:db9::/15"), "204.0.1.1");
}

fn check_display_loopback() {
    assert_eq!(formatted("::/15"), "000.0.0.0");
}

fn check_display_high() {
    assert_eq!(formatted("ffff:ffff::/17"), "fff.1.1.1.1.1");
}

#[test]
fn model_display_longest() {
    check_display_longest();
}

#[test]
fn model_display_too_long() {
    check_display_too_long();
}

#[test]
fn model_display_shortest() {
    check_display_shortest();
}

#[test]
fn model_display_too_short() {
    check_display_too_short();
}

#[test]
fn model_display_in_between() {
    check_display_in_between();
}

#[test]
fn model_display_loopback() {
    check_display_loopback();
}

#[test]
fn model_display_high() {
    check_display_high();
}

#[test]
fn models_display_longest() {
    check_display_longest();
}

#[test]
fn models_display_too_long() {
    check_display_too_long();
}

#[test]
fn models_display_shortest() {
    check_display_shortest();
}

#[test]
fn models_display_too_short() {
    check_display_too_short();
}

#[test]
fn models_display_in_between() {
    check_display_in_between();
}

#[test]
fn models_display_loopback() {
    check_display_loopback();
}

#[test]
fn models_display_high() {
    check_display_high();
}

#[test]
fn path_display_longest() {
    check_display_longest();
}

#[test]
fn path_display_too_long() {
    check_display_too_long();
}

#[test]
fn path_display_shortest() {
    check_display_shortest();
}

#[test]
fn path_display_too_short() {
    check_display_too_short();
}

#[test]
fn path_display_in_between() {
    check_display_in_between();
}

#[test]
fn path_display_loopback() {
    check_display_loopback();
}

#[test]
fn path_display_high() {
    check_display_high();
}

#[test]
fn path_from_str() {
    let test_cases = [
        ("204.0.1.1".to_string(), "2046::/15"),
        ("201".to_string(), "2010::/12"),
        ("fff.1.1.1.1.1".to_string(), "ffff:8000::/17"),
        (doc_prefix(), "2001:db8::/64"),
    ];
    for (input, expected) in test_cases {
        let parsed = PrefixPath::from_str(&input).expect(&input);
        assert_eq!(parsed.to_net(), net(expected));
    }
}

#[test]
fn path_from_str_errors_should_err_not_panic() {
    let test_cases = [
        "".to_string(),
        "asdf".to_string(),
        "aaa.7".to_string(),
        "aaaaa1".to_string(),
        format!("{}.", doc_prefix()),
        format!("{}.0", doc_prefix()),
    ];
    for input in test_cases {
        let parsed = PrefixPath::from_str(&input);
        assert!(parsed.is_err(), "{:?}", parsed);
    }
}

#[test]
fn path_roundtrip_of_prefix() {
    let stored = net("2a02:8070:abcc::/47");
    let path = PrefixPath::from(stored).to_path_string();
    let parsed = PrefixPath::from_str(&path).expect(&path);
    assert_eq!(parsed.to_net(), stored);
}

#[test]
fn path_errors_name_their_cause() {
    assert_eq!(PrefixPath::from_str("ab").unwrap_err(), PathParseError::TooShort);
    assert_eq!(PrefixPath::from_str("xyz").unwrap_err(), PathParseError::InvalidRoot);
    assert_eq!(PrefixPath::from_str("2011").unwrap_err(), PathParseError::ExpectedDot { pos: 3 });
    assert_eq!(PrefixPath::from_str("201.2").unwrap_err(), PathParseError::ExpectedBit { pos: 4 });
    let too_long = format!("201{}", ".0".repeat(53));
    assert_eq!(PrefixPath::from_str(&too_long).unwrap_err(), PathParseError::TooLong);
    let longest = format!("201{}", ".1".repeat(52));
    assert_eq!(PrefixPath::from_str(&longest).unwrap().to_net().len, 64);
}

#[test]
fn path_from_str_non_ascii_is_an_error() {
    assert_eq!(PrefixPath::from_str("\u{e9}").unwrap_err(), PathParseError::TooShort);
    assert_eq!(PrefixPath::from_str("ab\u{e9}.1").unwrap_err(), PathParseError::InvalidRoot);
    assert_eq!(PrefixPath::from_str("a\u{20ac}").unwrap_err(), PathParseError::InvalidRoot);
    assert_eq!(PrefixPath::from_str("201\u{e9}1").unwrap_err(), PathParseError::ExpectedDot { pos: 3 });
}
