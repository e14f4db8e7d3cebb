use aggregator::map64::{addr_to_key, addr_to_net, net_from_key, to_key, Net64Map};
use aggregator::prefix::Ipv6Prefix;
use ipnet::Ipv6Net;

fn net(input: &str) -> Ipv6Prefix {
    let parsed: Ipv6Net = input.parse().expect(input);
    Ipv6Prefix { addr: u128::from(parsed.addr()), len: parsed.prefix_len() }
}

fn addr(input: &str) -> u128 {
    let parsed: Ipv6Net = format!("{}/128", input).parse().expect(input);
    u128::from(parsed.addr())
}

#[test]
fn test_put_and_get() {
    let mut store: Net64Map<i32> = Net64Map::default();
    let addr = addr("2001:db8::56");
    let net = net("2001:db8::/64");
    *store.entry_by_addr_or(addr, 0) = 42;
    assert_eq!(*store.index_net(&net), 42);
}

#[test]
fn test_iter_correct_net() {
    let mut store: Net64Map<i32> = Net64Map::default();
    let addr = addr("2001:db8::56");
    let net = net("2001:db8::/64");
    *store.entry_by_addr_or(addr, 0) = 42;
    let mut iter = store.iter();
    assert_eq!(iter.next(), Some((net, &42)));
    assert_eq!(iter.next(), None);
}

#[test]
fn test_addr_to_net() {
    let addr = addr("2001:db8::56");
    let net_key = to_key(&net("2001:db8::/64"));
    let addr_key = addr_to_key(addr);
    assert_eq!(addr_key, net_key);
}

#[test]
fn test_key_conversion() {
    let expected = 0x2001db8000000u64;
    let net_key = to_key(&net("2001:db8::865/64"));
    assert_eq!(net_key, expected);
}

#[test]
fn key_converts_back_to_network() {
    let key = to_key(&net("2001:db8::865/64"));
    assert_eq!(net_from_key(key), net("2001:db8::/64"));
    assert_eq!(addr_to_net(addr("2001:db8::865")), net("2001:db8::865/64"));
}

#[test]
fn entries_of_same_net_are_shared() {
    let mut store: Net64Map<i32> = Net64Map::default();
    *store.entry_by_addr_or(addr("2001:db8::1"), 0) += 1;
    *store.entry_by_addr_or(addr("2001:db8::2"), 0) += 1;
    *store.entry_by_addr_or(addr("2001:db8:0:1::2"), 0) += 5;
    assert_eq!(store.len(), 2);
    assert!(store.contains_net(&net("2001:db8::/64")));
    assert_eq!(*store.index_addr(addr("2001:db8::77")), 2);
    let mut drained = store.drain();
    drained.sort_by_key(|(n, _)| n.addr);
    assert_eq!(drained, vec![(net("2001:db8::/64"), 2), (net("2001:db8:0:1::/64"), 5)]);
    assert_eq!(store.len(), 0);
}
