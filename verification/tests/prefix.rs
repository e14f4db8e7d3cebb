use aggregator::map64::{addr_to_key, net_from_key, to_key};
use aggregator::prefix::Ipv6Prefix;

const DOC: u128 = 0x2001_0db8_0000_0000_0000_0000_0000_0000;

#[test]
fn new_refuses_long_prefix_len() {
    assert_eq!(Ipv6Prefix::new(DOC, 128), Some(Ipv6Prefix { addr: DOC, len: 128 }));
    assert_eq!(Ipv6Prefix::new(DOC | 5, 64), Some(Ipv6Prefix { addr: DOC | 5, len: 64 }));
    assert_eq!(Ipv6Prefix::new(DOC, 129), None);
}

#[test]
fn network_truncates_host_bits() {
    let net = Ipv6Prefix { addr: DOC | 0xffff, len: 112 };
    assert_eq!(net.network(), DOC);
    let whole = Ipv6Prefix { addr: u128::MAX, len: 0 };
    assert_eq!(whole.network(), 0);
}

#[test]
fn contains_subnets_only() {
    let wide = Ipv6Prefix { addr: DOC, len: 32 };
    let narrow = Ipv6Prefix { addr: DOC | (1 << 64), len: 64 };
    assert!(wide.contains(&narrow));
    assert!(!narrow.contains(&wide));
    assert!(wide.contains(&wide));
    let other = Ipv6Prefix { addr: DOC + (1 << 96), len: 32 };
    assert!(!wide.contains(&other));
}

#[test]
fn supernet_is_one_bit_shorter_and_truncated() {
    let net = Ipv6Prefix { addr: DOC | (1 << 95), len: 33 };
    assert_eq!(net.supernet(), Some(Ipv6Prefix { addr: DOC, len: 32 }));
    assert_eq!(Ipv6Prefix { addr: DOC, len: 0 }.supernet(), None);
}

#[test]
fn subnets_listed_in_order() {
    let net = Ipv6Prefix { addr: DOC | 1, len: 32 };
    let subnets = net.subnets(34).unwrap();
    assert_eq!(
        subnets,
        vec![
            Ipv6Prefix { addr: DOC, len: 34 },
            Ipv6Prefix { addr: DOC + (1 << 94), len: 34 },
            Ipv6Prefix { addr: DOC + (2 << 94), len: 34 },
            Ipv6Prefix { addr: DOC + (3 << 94), len: 34 },
        ]
    );
    assert_eq!(net.subnets(32).unwrap(), vec![Ipv6Prefix { addr: DOC, len: 32 }]);
    assert_eq!(net.subnets(31), None);
    let host = Ipv6Prefix { addr: DOC, len: 128 };
    assert_eq!(host.subnets(129), None);
}

#[test]
fn keys_roundtrip() {
    let key = addr_to_key(DOC | 0x56);
    assert_eq!(key, 0x2001db8000000);
    assert_eq!(net_from_key(key), Ipv6Prefix { addr: DOC, len: 64 });
    assert_eq!(to_key(&net_from_key(key)), key);
    assert_eq!(to_key(&Ipv6Prefix { addr: DOC | 0x865, len: 64 }), key);
}
