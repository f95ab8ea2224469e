use claim_table::table::ClaimTable;
use claim_table::types::{Address, Duration, PeerAddr, Range, Time, TimeSource};
use std::sync::atomic::{AtomicI64, Ordering};

/// The times that the clocks of the tests show.
static TIMES: [AtomicI64; 32] = [const { AtomicI64::new(0) }; 32];

/// A clock that shows what it was set to. Each test has one of its own.
struct MockTimeSource<const ID: usize>;

impl<const ID: usize> MockTimeSource<ID> {
    fn set_time(time: Time) {
        TIMES[ID].store(time, Ordering::SeqCst);
    }
}

impl<const ID: usize> TimeSource for MockTimeSource<ID> {
    fn now() -> Time {
        TIMES[ID].load(Ordering::SeqCst)
    }
}

/// An IPv4 address in dotted notation.
fn ipv4_addr(s: &str) -> Address {
    let mut data = [0u8; 16];
    let mut n = 0;
    for part in s.split('.') {
        data[n] = part.parse::<u8>().unwrap();
        n += 1;
    }
    assert_eq!(n, 4);
    Address { data, len: 4 }
}

/// An IPv4 range in CIDR notation.
fn ipv4_range(s: &str) -> Range {
    let (base, prefix_len) = s.split_once('/').unwrap();
    Range { base: ipv4_addr(base), prefix_len: prefix_len.parse::<u8>().unwrap() }
}

/// An IPv4 socket address, with the port behind a colon.
fn sock_addr(s: &str) -> PeerAddr {
    let (ip, port) = s.split_once(':').unwrap();
    let d = ipv4_addr(ip).data;
    PeerAddr::V4 { ip: u32::from_be_bytes([d[0], d[1], d[2], d[3]]), port: port.parse::<u16>().unwrap() }
}

fn new_table<const ID: usize>(
    cache_timeout: Duration,
    claim_timeout: Duration,
) -> ClaimTable<MockTimeSource<ID>> {
    MockTimeSource::<ID>::set_time(1000);
    ClaimTable::new(cache_timeout, claim_timeout)
}

#[test]
fn table_set_claims_and_lookup() {
    let mut table = new_table::<0>(60, 300);
    let peer = sock_addr("192.168.1.1:3210");

    table.set_claims(peer, vec![ipv4_range("10.0.0.0/8")]);

    assert_eq!(table.lookup(ipv4_addr("10.1.2.3")), Some(peer));
    assert_eq!(table.claim_len(), 1);
}

#[test]
fn table_lookup_caches_result() {
    let mut table = new_table::<1>(60, 300);
    let peer = sock_addr("192.168.1.1:3210");

    table.set_claims(peer, vec![ipv4_range("10.0.0.0/8")]);

    assert_eq!(table.lookup(ipv4_addr("10.1.2.3")), Some(peer));
    assert_eq!(table.cache_len(), 1);

    assert_eq!(table.lookup(ipv4_addr("10.1.2.3")), Some(peer));
    assert_eq!(table.cache_len(), 1);
}

#[test]
fn table_remove_claims() {
    let mut table = new_table::<2>(60, 300);
    let peer1 = sock_addr("192.168.1.1:3210");
    let peer2 = sock_addr("192.168.1.2:3210");

    table.set_claims(peer1, vec![ipv4_range("10.0.0.0/8")]);
    table.set_claims(peer2, vec![ipv4_range("192.168.0.0/16")]);

    assert_eq!(table.claim_len(), 2);

    table.remove_claims(peer1);

    assert_eq!(table.claim_len(), 1);
    assert_eq!(table.lookup(ipv4_addr("10.1.2.3")), None);
    assert_eq!(table.lookup(ipv4_addr("192.168.1.1")), Some(peer2));
}

#[test]
fn table_claim_timeout() {
    let mut table = new_table::<3>(60, 100);
    let peer = sock_addr("192.168.1.1:3210");

    MockTimeSource::<3>::set_time(1000);
    table.set_claims(peer, vec![ipv4_range("10.0.0.0/8")]);

    assert_eq!(table.lookup(ipv4_addr("10.1.2.3")), Some(peer));

    MockTimeSource::<3>::set_time(1101);
    table.housekeep();

    assert_eq!(table.claim_len(), 0);
    assert_eq!(table.lookup(ipv4_addr("10.1.2.3")), None);
}

#[test]
fn table_cache_timeout() {
    let mut table = new_table::<4>(50, 300);
    let peer = sock_addr("192.168.1.1:3210");

    MockTimeSource::<4>::set_time(1000);
    table.set_claims(peer, vec![ipv4_range("10.0.0.0/8")]);

    assert_eq!(table.lookup(ipv4_addr("10.1.2.3")), Some(peer));
    assert_eq!(table.cache_len(), 1);

    MockTimeSource::<4>::set_time(1051);
    table.housekeep();

    assert_eq!(table.cache_len(), 0);
    assert_eq!(table.claim_len(), 1);
    assert_eq!(table.lookup(ipv4_addr("10.1.2.3")), Some(peer));
}

#[test]
fn table_clear_cache() {
    let mut table = new_table::<5>(60, 300);
    let peer = sock_addr("192.168.1.1:3210");

    table.set_claims(peer, vec![ipv4_range("10.0.0.0/8")]);
    table.lookup(ipv4_addr("10.1.2.3"));
    assert_eq!(table.cache_len(), 1);

    table.clear_cache();
    assert_eq!(table.cache_len(), 0);

    assert_eq!(table.lookup(ipv4_addr("10.1.2.3")), Some(peer));
}

#[test]
fn table_update_claims_refreshes_timeout() {
    let mut table = new_table::<6>(60, 100);
    let peer = sock_addr("192.168.1.1:3210");

    MockTimeSource::<6>::set_time(1000);
    table.set_claims(peer, vec![ipv4_range("10.0.0.0/8")]);

    MockTimeSource::<6>::set_time(1050);
    table.set_claims(peer, vec![ipv4_range("10.0.0.0/8")]);

    MockTimeSource::<6>::set_time(1101);
    table.housekeep();

    assert_eq!(table.claim_len(), 1);
    assert_eq!(table.lookup(ipv4_addr("10.1.2.3")), Some(peer));
}

#[test]
fn table_longest_prefix_match() {
    let mut table = new_table::<7>(60, 300);
    let peer1 = sock_addr("192.168.1.1:3210");
    let peer2 = sock_addr("192.168.1.2:3210");

    table.set_claims(peer1, vec![ipv4_range("10.0.0.0/8")]);
    table.set_claims(peer2, vec![ipv4_range("10.1.0.0/16")]);

    assert_eq!(table.lookup(ipv4_addr("10.1.2.3")), Some(peer2));
    assert_eq!(table.lookup(ipv4_addr("10.2.3.4")), Some(peer1));
}

#[test]
fn table_no_match() {
    let mut table = new_table::<8>(60, 300);
    let peer = sock_addr("192.168.1.1:3210");

    table.set_claims(peer, vec![ipv4_range("10.0.0.0/8")]);

    assert_eq!(table.lookup(ipv4_addr("192.168.1.1")), None);
}

#[test]
fn table_multiple_peers() {
    let mut table = new_table::<9>(60, 300);
    let peer1 = sock_addr("192.168.1.1:3210");
    let peer2 = sock_addr("192.168.1.2:3210");
    let peer3 = sock_addr("192.168.1.3:3210");

    table.set_claims(peer1, vec![ipv4_range("10.0.0.0/8")]);
    table.set_claims(peer2, vec![ipv4_range("172.16.0.0/12")]);
    table.set_claims(peer3, vec![ipv4_range("192.168.0.0/16")]);

    assert_eq!(table.lookup(ipv4_addr("10.1.2.3")), Some(peer1));
    assert_eq!(table.lookup(ipv4_addr("172.16.1.1")), Some(peer2));
    assert_eq!(table.lookup(ipv4_addr("192.168.1.1")), Some(peer3));
}

#[test]
fn table_remove_one_peer_claims() {
    let mut table = new_table::<10>(60, 300);
    let peer1 = sock_addr("192.168.1.1:3210");
    let peer2 = sock_addr("192.168.1.2:3210");

    table.set_claims(peer1, vec![ipv4_range("10.0.0.0/8")]);
    table.set_claims(peer2, vec![ipv4_range("10.0.0.0/8")]);

    assert_eq!(table.claim_len(), 2);

    table.remove_claims(peer1);

    assert_eq!(table.claim_len(), 1);
    assert_eq!(table.lookup(ipv4_addr("10.1.2.3")), Some(peer2));
}

#[test]
fn table_cache_expires_but_claim_persists() {
    let mut table = new_table::<11>(30, 300);
    let peer = sock_addr("192.168.1.1:3210");

    MockTimeSource::<11>::set_time(1000);
    table.set_claims(peer, vec![ipv4_range("10.0.0.0/8")]);

    table.lookup(ipv4_addr("10.1.2.3"));
    assert_eq!(table.cache_len(), 1);

    MockTimeSource::<11>::set_time(1031);
    table.housekeep();
    assert_eq!(table.cache_len(), 0);

    assert_eq!(table.claim_len(), 1);
    assert_eq!(table.lookup(ipv4_addr("10.1.2.3")), Some(peer));
}

#[test]
fn table_empty_lookup_returns_none() {
    let mut table = new_table::<12>(60, 300);
    assert_eq!(table.lookup(ipv4_addr("10.0.0.0")), None);
}
