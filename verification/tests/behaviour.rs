use claim_table::report::row;
use claim_table::table::ClaimTable;
use claim_table::types::{Address, PeerAddr, Range, Time, TimeSource};
use std::sync::atomic::{AtomicI64, Ordering};

/// How often the clocks of the tests have been read.
static TICKS: [AtomicI64; 8] = [const { AtomicI64::new(0) }; 8];

/// A clock that shows one second more each time it is read, from 1000 on. Each
/// test has one of its own.
struct Ticking<const ID: usize>;

impl<const ID: usize> TimeSource for Ticking<ID> {
    fn now() -> Time {
        1000 + TICKS[ID].fetch_add(1, Ordering::SeqCst)
    }
}

/// A clock that shows one time only.
struct Stopped;

impl TimeSource for Stopped {
    fn now() -> Time {
        1000
    }
}

fn addr(bytes: [u8; 4]) -> Address {
    let mut data = [0u8; 16];
    data[..4].copy_from_slice(&bytes);
    Address { data, len: 4 }
}

/// The range of the addresses that start with a byte.
fn range(first: u8) -> Range {
    Range { base: addr([first, 0, 0, 0]), prefix_len: 8 }
}

fn peer(n: u16) -> PeerAddr {
    PeerAddr::V4 { ip: 0x0a00_0001, port: n }
}

fn range_text(range: Range) -> String {
    format!("{}/{}", addr_text(range.base), range.prefix_len)
}

fn addr_text(addr: Address) -> String {
    let d = addr.data;
    format!("{}.{}.{}.{}", d[0], d[1], d[2], d[3])
}

fn peer_text(peer: PeerAddr) -> String {
    match peer {
        PeerAddr::V4 { port, .. } => format!("p{}", port),
        PeerAddr::V6 { port, .. } => format!("q{}", port),
    }
}

/// The first bytes of the claimed ranges and the seconds that the claims last
/// from 1000 on, in their order.
fn claims<TS: TimeSource>(table: &ClaimTable<TS>) -> Vec<String> {
    let lines = table.write_out_at(1000, range_text, addr_text, peer_text);
    lines[2..2 + table.claim_len()].to_vec()
}

fn claim_line(first: u8, peer: u16, timeout: i64) -> String {
    format!("    - \"{}.0.0.0/8\": {{ peer: \"p{}\", timeout: {} }}", first, peer, timeout)
}

#[test]
fn rows_are_written_as_they_should_be() {
    assert_eq!(row("10.0.0.0/8", "1.2.3.4:5", 300), "    - \"10.0.0.0/8\": { peer: \"1.2.3.4:5\", timeout: 300 }");
    assert_eq!(row("", "", 0), "    - \"\": { peer: \"\", timeout: 0 }");
    assert_eq!(row("a", "b", -12), "    - \"a\": { peer: \"b\", timeout: -12 }");
    assert_eq!(row("a", "b", i64::MIN), format!("    - \"a\": {{ peer: \"b\", timeout: {} }}", i64::MIN));
    assert_eq!(row("a", "b", i64::MAX), format!("    - \"a\": {{ peer: \"b\", timeout: {} }}", i64::MAX));
}

#[test]
fn table_is_written_out() {
    let mut table = ClaimTable::<Stopped>::new(60, 300);
    table.set_claims(peer(1), vec![range(10), range(11)]);
    table.cache(addr([7, 7, 7, 7]), peer(2));
    let lines = table.write_out_at(1010, range_text, addr_text, peer_text);
    assert_eq!(
        lines,
        vec![
            "forwarding_table:".to_string(),
            "  claims:".to_string(),
            "    - \"10.0.0.0/8\": { peer: \"p1\", timeout: 290 }".to_string(),
            "    - \"11.0.0.0/8\": { peer: \"p1\", timeout: 290 }".to_string(),
            "  cache:".to_string(),
            "    - \"7.7.7.7\": { peer: \"p2\", timeout: 50 }".to_string(),
        ]
    );
    let now = table.write_out(range_text, addr_text, peer_text);
    assert_eq!(now[2], "    - \"10.0.0.0/8\": { peer: \"p1\", timeout: 300 }");
}

#[test]
fn written_cache_has_every_address_once() {
    let mut table = ClaimTable::<Stopped>::new(60, 300);
    for i in 0..50 {
        table.cache(addr([1, 2, 3, i]), peer(i as u16));
    }
    let mut lines = table.write_out(range_text, addr_text, peer_text).split_off(3);
    lines.sort();
    let mut expected: Vec<String> = (0..50)
        .map(|i| format!("    - \"1.2.3.{}\": {{ peer: \"p{}\", timeout: 60 }}", i, i))
        .collect();
    expected.sort();
    assert_eq!(lines, expected);
}

#[test]
fn empty_table_is_written_out() {
    let table = ClaimTable::<Stopped>::new(60, 300);
    let lines = table.write_out(range_text, addr_text, peer_text);
    assert_eq!(lines, vec!["forwarding_table:", "  claims:", "  cache:"]);
}

#[test]
fn cached_address_goes_before_the_claims() {
    let mut table = ClaimTable::<Stopped>::new(60, 300);
    table.set_claims(peer(1), vec![range(10)]);
    table.cache(addr([10, 0, 0, 1]), peer(2));
    assert_eq!(table.lookup(addr([10, 0, 0, 1])), Some(peer(2)));
    assert_eq!(table.lookup(addr([10, 0, 0, 2])), Some(peer(1)));
    table.cache(addr([10, 0, 0, 1]), peer(3));
    assert_eq!(table.lookup(addr([10, 0, 0, 1])), Some(peer(3)));
    assert_eq!(table.cache_len(), 2);
}

#[test]
fn bytes_behind_an_address_do_not_matter_to_the_cache() {
    let mut table = ClaimTable::<Stopped>::new(60, 300);
    table.cache(addr([10, 0, 0, 1]), peer(2));
    let mut dirty = addr([10, 0, 0, 1]);
    dirty.data[15] = 1;
    assert_eq!(table.lookup(dirty), Some(peer(2)));
    table.cache(dirty, peer(3));
    assert_eq!(table.cache_len(), 1);
    assert_eq!(table.lookup(addr([10, 0, 0, 1])), Some(peer(3)));
}

#[test]
fn addresses_time_out_after_their_deadline() {
    let mut table = ClaimTable::<Stopped>::new(60, 300);
    table.cache_at(addr([10, 0, 0, 1]), peer(1), 1000);
    table.cache_at(addr([10, 0, 0, 2]), peer(1), 1001);
    table.housekeep_at(1060);
    assert_eq!(table.cache_len(), 2);
    table.housekeep_at(1061);
    assert_eq!(table.cache_len(), 1);
    assert_eq!(table.lookup(addr([10, 0, 0, 1])), None);
    assert_eq!(table.lookup(addr([10, 0, 0, 2])), Some(peer(1)));
}

#[test]
fn claims_time_out_after_their_deadline() {
    let mut table = ClaimTable::<Stopped>::new(60, 300);
    table.set_claims_at(peer(1), vec![range(10)], 1000);
    table.housekeep_at(1300);
    assert_eq!(table.claim_len(), 1);
    table.housekeep_at(1301);
    assert_eq!(table.claim_len(), 0);
}

#[test]
fn housekeeping_twice_is_housekeeping_once() {
    let mut table = ClaimTable::<Stopped>::new(60, 300);
    table.set_claims_at(peer(1), vec![range(10)], 1000);
    table.set_claims_at(peer(2), vec![range(11)], 1100);
    table.housekeep_at(1350);
    let once = claims(&table);
    table.housekeep_at(1350);
    assert_eq!(claims(&table), once);
    assert_eq!(once, vec![claim_line(11, 2, 400)]);
}

#[test]
fn looked_up_address_does_not_outlive_its_claim() {
    let mut table = ClaimTable::<Stopped>::new(60, 30);
    table.set_claims_at(peer(1), vec![range(10)], 1000);
    assert_eq!(table.lookup_at(addr([10, 0, 0, 1]), 1000), Some(peer(1)));
    table.housekeep_at(1030);
    assert_eq!(table.cache_len(), 1);
    table.housekeep_at(1031);
    assert_eq!(table.cache_len(), 0);
    assert_eq!(table.claim_len(), 0);
}

#[test]
fn timed_out_address_is_found_until_housekeeping() {
    let mut table = ClaimTable::<Stopped>::new(60, 300);
    table.cache_at(addr([10, 0, 0, 1]), peer(1), 0);
    assert_eq!(table.lookup_at(addr([10, 0, 0, 1]), 5000), Some(peer(1)));
    table.housekeep_at(5000);
    assert_eq!(table.lookup_at(addr([10, 0, 0, 1]), 5000), None);
}

#[test]
fn lookup_reads_the_clock_only_when_it_remembers() {
    let mut table = ClaimTable::<Ticking<0>>::new(60, 300);
    assert_eq!(table.lookup(addr([10, 0, 0, 1])), None);
    assert_eq!(TICKS[0].load(Ordering::SeqCst), 0);
    table.set_claims_at(peer(1), vec![range(10)], 1000);
    assert_eq!(table.lookup(addr([10, 0, 0, 1])), Some(peer(1)));
    assert_eq!(TICKS[0].load(Ordering::SeqCst), 1);
    assert_eq!(table.lookup(addr([10, 0, 0, 1])), Some(peer(1)));
    assert_eq!(TICKS[0].load(Ordering::SeqCst), 1);
}

#[test]
fn clock_is_read_for_each_range_and_the_housekeeping() {
    let mut table = ClaimTable::<Ticking<1>>::new(60, 300);
    table.set_claims(peer(1), vec![range(10), range(11)]);
    assert_eq!(TICKS[1].load(Ordering::SeqCst), 3);
    assert_eq!(claims(&table), vec![claim_line(10, 1, 300), claim_line(11, 1, 301)]);
    table.set_claims(peer(1), vec![range(11), range(10), range(12)]);
    assert_eq!(TICKS[1].load(Ordering::SeqCst), 7);
    assert_eq!(
        claims(&table),
        vec![claim_line(10, 1, 303), claim_line(11, 1, 304), claim_line(12, 1, 305)]
    );
}

#[test]
fn last_range_takes_the_place_of_a_renewed_one() {
    let mut table = ClaimTable::<Stopped>::new(60, 300);
    table.set_claims(peer(1), vec![range(10)]);
    table.set_claims(peer(1), vec![range(10), range(11), range(12)]);
    assert_eq!(
        claims(&table),
        vec![claim_line(10, 1, 300), claim_line(12, 1, 300), claim_line(11, 1, 300)]
    );
}

#[test]
fn unlisted_claim_is_dropped_with_the_peers_addresses() {
    let mut table = ClaimTable::<Stopped>::new(60, 300);
    table.set_claims(peer(1), vec![range(10), range(11)]);
    table.set_claims(peer(2), vec![range(12)]);
    table.lookup(addr([11, 0, 0, 1]));
    table.lookup(addr([12, 0, 0, 1]));
    assert_eq!(table.cache_len(), 2);
    table.set_claims(peer(1), vec![range(11)]);
    assert_eq!(claims(&table), vec![claim_line(11, 1, 300), claim_line(12, 2, 300)]);
    assert_eq!(table.cache_len(), 1);
    assert_eq!(table.lookup(addr([10, 0, 0, 1])), None);
    assert_eq!(table.lookup(addr([12, 0, 0, 1])), Some(peer(2)));
}

#[test]
fn claims_behind_the_last_listed_one_stay() {
    let mut table = ClaimTable::<Stopped>::new(60, 300);
    table.set_claims_at(peer(1), vec![range(10), range(11)], 1000);
    table.lookup(addr([11, 0, 0, 1]));
    table.set_claims_at(peer(1), vec![range(10)], 1050);
    assert_eq!(claims(&table), vec![claim_line(10, 1, 350), claim_line(11, 1, 300)]);
    assert_eq!(table.cache_len(), 1);
}

#[test]
fn range_on_the_list_twice_has_two_claims() {
    let mut table = ClaimTable::<Stopped>::new(60, 300);
    table.set_claims_at(peer(1), vec![range(10), range(10)], 1000);
    assert_eq!(table.claim_len(), 2);
    table.set_claims_at(peer(1), vec![range(10), range(10)], 1010);
    assert_eq!(claims(&table), vec![claim_line(10, 1, 310), claim_line(10, 1, 310)]);
}

#[test]
fn empty_list_removes_what_remove_claims_removes() {
    for remove in [false, true] {
        let mut table = ClaimTable::<Stopped>::new(60, 300);
        table.set_claims(peer(1), vec![range(10)]);
        table.set_claims(peer(2), vec![range(11)]);
        table.lookup(addr([10, 0, 0, 1]));
        table.lookup(addr([11, 0, 0, 1]));
        if remove {
            table.remove_claims_at(peer(1), 1000);
        } else {
            table.set_claims_at(peer(1), vec![], 1000);
        }
        assert_eq!(claims(&table), vec![claim_line(11, 2, 300)]);
        assert_eq!(table.cache_len(), 1);
        assert_eq!(table.lookup(addr([10, 0, 0, 1])), None);
    }
}

#[test]
fn empty_list_of_a_peer_without_claims_keeps_its_addresses() {
    let mut table = ClaimTable::<Stopped>::new(60, 300);
    table.cache(addr([10, 0, 0, 1]), peer(1));
    table.set_claims(peer(1), vec![]);
    assert_eq!(table.cache_len(), 1);
    table.remove_claims(peer(1));
    assert_eq!(table.cache_len(), 0);
}

#[test]
fn removed_claims_time_out_at_zero() {
    let mut table = ClaimTable::<Stopped>::new(60, 300);
    table.set_claims_at(peer(1), vec![range(10)], -10);
    table.remove_claims_at(peer(1), 0);
    assert_eq!(table.claim_len(), 1);
    table.remove_claims_at(peer(1), 1);
    assert_eq!(table.claim_len(), 0);
}

#[test]
fn last_claim_of_a_range_wins() {
    let mut table = ClaimTable::<Stopped>::new(60, 300);
    table.set_claims(peer(1), vec![range(10)]);
    table.set_claims(peer(2), vec![range(10)]);
    assert_eq!(table.lookup(addr([10, 0, 0, 1])), Some(peer(2)));
    table.clear_cache();
    table.remove_claims(peer(2));
    assert_eq!(table.lookup(addr([10, 0, 0, 1])), Some(peer(1)));
}

#[test]
fn lookups_change_no_answers() {
    let mut table = ClaimTable::<Stopped>::new(60, 300);
    table.set_claims(peer(1), vec![range(10)]);
    for i in 0..20 {
        assert_eq!(table.lookup(addr([10, 0, 0, i])), Some(peer(1)));
        assert_eq!(table.lookup(addr([11, 0, 0, i])), None);
    }
    assert_eq!(table.cache_len(), 20);
    assert_eq!(table.claim_len(), 1);
}

#[test]
fn later_housekeeping_makes_up_for_an_earlier_one() {
    for earlier in [false, true] {
        let mut table = ClaimTable::<Stopped>::new(60, 300);
        table.set_claims_at(peer(1), vec![range(10)], 1000);
        table.set_claims_at(peer(2), vec![range(11)], 1100);
        table.set_claims_at(peer(3), vec![range(12)], 1200);
        table.cache_at(addr([7, 7, 7, 7]), peer(1), 1280);
        if earlier {
            table.housekeep_at(1310);
            assert_eq!(table.claim_len(), 2);
        }
        table.housekeep_at(1410);
        assert_eq!(claims(&table), vec![claim_line(12, 3, 500)]);
        assert_eq!(table.cache_len(), 0);
    }
}

#[test]
fn same_peer_is_found_when_the_cache_has_timed_out() {
    let mut table = ClaimTable::<Stopped>::new(60, 300);
    table.set_claims_at(peer(1), vec![range(10)], 1000);
    table.set_claims_at(peer(2), vec![range(10)], 1010);
    table.set_claims_at(peer(3), vec![Range { base: addr([10, 1, 0, 0]), prefix_len: 16 }], 900);
    assert_eq!(table.lookup_at(addr([10, 0, 0, 1]), 1010), Some(peer(2)));
    assert_eq!(table.lookup_at(addr([10, 1, 0, 1]), 1010), Some(peer(3)));
    table.housekeep_at(1200);
    assert_eq!(table.cache_len(), 0);
    assert_eq!(table.lookup_at(addr([10, 0, 0, 1]), 1200), Some(peer(2)));
    assert_eq!(table.lookup_at(addr([10, 1, 0, 1]), 1200), Some(peer(3)));
    table.housekeep_at(1305);
    assert_eq!(table.lookup_at(addr([10, 1, 0, 1]), 1305), Some(peer(2)));
    table.housekeep_at(1311);
    assert_eq!(table.claim_len(), 0);
    table.housekeep_at(1400);
    assert_eq!(table.lookup_at(addr([10, 1, 0, 1]), 1400), None);
}

#[test]
fn setting_the_same_list_twice_is_setting_it_once() {
    for list in [vec![], vec![11], vec![11, 10], vec![12, 13, 11, 12]] {
        let mut table = ClaimTable::<Stopped>::new(60, 300);
        table.set_claims_at(peer(2), vec![range(20)], 950);
        table.set_claims_at(peer(1), vec![range(10), range(11), range(14)], 950);
        table.lookup_at(addr([10, 0, 0, 1]), 950);
        table.lookup_at(addr([20, 0, 0, 1]), 950);
        let ranges: Vec<Range> = list.iter().map(|first| range(*first)).collect();
        table.set_claims_at(peer(1), ranges.clone(), 1000);
        let once = claims(&table);
        let cached = table.cache_len();
        table.set_claims_at(peer(1), ranges, 1000);
        assert_eq!(claims(&table), once);
        assert_eq!(table.cache_len(), cached);
    }
}

#[test]
fn remembered_addresses_are_backed_by_claims() {
    let mut table = ClaimTable::<Stopped>::new(500, 300);
    table.set_claims_at(peer(1), vec![range(10), range(11)], 1000);
    table.set_claims_at(peer(2), vec![range(12)], 1100);
    table.lookup_at(addr([10, 0, 0, 1]), 1100);
    table.lookup_at(addr([12, 0, 0, 1]), 1100);
    table.set_claims_at(peer(1), vec![range(10), range(11)], 1200);
    table.lookup_at(addr([11, 0, 0, 1]), 1250);
    assert_eq!(table.cache_len(), 3);
    table.housekeep_at(1301);
    assert_eq!(table.cache_len(), 2);
    assert_eq!(table.claim_len(), 3);
    table.remove_claims_at(peer(2), 1350);
    assert_eq!(table.cache_len(), 1);
    table.housekeep_at(1501);
    assert_eq!(table.claim_len(), 0);
    assert_eq!(table.cache_len(), 0);
}

#[test]
fn rebuilding_the_trie_changes_no_answer() {
    let mut table = ClaimTable::<Stopped>::new(60, 300);
    table.set_claims_at(peer(1), vec![range(10)], 1000);
    table.set_claims_at(peer(2), vec![range(10), range(11)], 1000);
    table.rebuild_trie();
    assert_eq!(table.lookup(addr([10, 0, 0, 1])), Some(peer(2)));
    assert_eq!(table.lookup(addr([11, 0, 0, 1])), Some(peer(2)));
    assert_eq!(table.lookup(addr([12, 0, 0, 1])), None);
    assert_eq!(table.claim_len(), 3);
}
