use claim_table::trie::ClaimTrie;
use claim_table::types::{Address, Range};

/// An IPv4 address in dotted notation.
fn ipv4_addr(s: &str) -> Address {
    let mut data = [0u8; 16];
    let mut n = 0;
    for part in s.split('.') {
        data[n] = part.parse::<u8>().unwrap();
        n += 1;
    }
    assert_eq!(n, 4);
    Address { data, len: 4 }
}

/// An IPv4 range in CIDR notation.
fn ipv4_range(s: &str) -> Range {
    let (base, prefix_len) = s.split_once('/').unwrap();
    Range { base: ipv4_addr(base), prefix_len: prefix_len.parse::<u8>().unwrap() }
}

#[test]
fn trie_insert_and_longest_match_basic() {
    let mut trie = ClaimTrie::new();
    trie.insert(&ipv4_range("10.0.0.0/8"), 0);
    trie.insert(&ipv4_range("192.168.0.0/16"), 1);

    assert_eq!(trie.longest_match(&ipv4_addr("10.1.2.3")), Some(0));
    assert_eq!(trie.longest_match(&ipv4_addr("192.168.1.1")), Some(1));
    assert_eq!(trie.longest_match(&ipv4_addr("172.16.0.1")), None);
}

#[test]
fn trie_longest_prefix_wins() {
    let mut trie = ClaimTrie::new();
    trie.insert(&ipv4_range("10.0.0.0/8"), 0);
    trie.insert(&ipv4_range("10.1.0.0/16"), 1);
    trie.insert(&ipv4_range("10.1.2.0/24"), 2);

    assert_eq!(trie.longest_match(&ipv4_addr("10.1.2.5")), Some(2));
    assert_eq!(trie.longest_match(&ipv4_addr("10.1.3.5")), Some(1));
    assert_eq!(trie.longest_match(&ipv4_addr("10.2.3.4")), Some(0));
}

#[test]
fn trie_exact_match() {
    let mut trie = ClaimTrie::new();
    trie.insert(&ipv4_range("10.0.0.0/32"), 0);

    assert_eq!(trie.longest_match(&ipv4_addr("10.0.0.0")), Some(0));
    assert_eq!(trie.longest_match(&ipv4_addr("10.0.0.1")), None);
}

#[test]
fn trie_default_route() {
    let mut trie = ClaimTrie::new();
    trie.insert(&ipv4_range("0.0.0.0/0"), 0);
    trie.insert(&ipv4_range("10.0.0.0/8"), 1);

    assert_eq!(trie.longest_match(&ipv4_addr("192.168.1.1")), Some(0));
    assert_eq!(trie.longest_match(&ipv4_addr("10.1.2.3")), Some(1));
}

#[test]
fn trie_clear() {
    let mut trie = ClaimTrie::new();
    trie.insert(&ipv4_range("10.0.0.0/8"), 0);
    trie.insert(&ipv4_range("192.168.0.0/16"), 1);

    assert_eq!(trie.longest_match(&ipv4_addr("10.1.2.3")), Some(0));

    trie.clear();

    assert_eq!(trie.longest_match(&ipv4_addr("10.1.2.3")), None);
    assert_eq!(trie.longest_match(&ipv4_addr("192.168.1.1")), None);
}

#[test]
fn trie_insert_overwrite() {
    let mut trie = ClaimTrie::new();
    trie.insert(&ipv4_range("10.0.0.0/8"), 0);
    trie.insert(&ipv4_range("10.0.0.0/8"), 1);

    assert_eq!(trie.longest_match(&ipv4_addr("10.1.2.3")), Some(1));
}

#[test]
fn trie_empty_has_no_match() {
    let trie = ClaimTrie::new();
    assert_eq!(trie.longest_match(&ipv4_addr("10.0.0.0")), None);
}

#[test]
fn trie_many_prefixes() {
    let mut trie = ClaimTrie::new();
    for i in 0..256 {
        let range = ipv4_range(&format!("10.0.{}.0/24", i));
        trie.insert(&range, i);
    }

    assert_eq!(trie.longest_match(&ipv4_addr("10.0.0.5")), Some(0));
    assert_eq!(trie.longest_match(&ipv4_addr("10.0.127.1")), Some(127));
    assert_eq!(trie.longest_match(&ipv4_addr("10.0.255.255")), Some(255));
    assert_eq!(trie.longest_match(&ipv4_addr("10.1.0.0")), None);
}
