use claim_table::trie::ClaimTrie;
use claim_table::types::{Address, Range};

/// An address with zeros behind its bytes.
fn address(bytes: &[u8]) -> Address {
    let mut data = [0u8; 16];
    data[..bytes.len()].copy_from_slice(bytes);
    Address { data, len: bytes.len() as u8 }
}

fn range(bytes: &[u8], prefix_len: u8) -> Range {
    Range { base: address(bytes), prefix_len }
}

#[test]
fn prefix_beyond_the_base_is_the_whole_base() {
    let mut trie = ClaimTrie::new();
    trie.insert(&range(&[10, 0, 0, 1], 200), 7);
    assert_eq!(trie.longest_match(&address(&[10, 0, 0, 1])), Some(7));
    assert_eq!(trie.longest_match(&address(&[10, 0, 0, 0])), None);
    trie.insert(&range(&[10, 0, 0, 1], 32), 8);
    assert_eq!(trie.longest_match(&address(&[10, 0, 0, 1])), Some(8));
}

#[test]
fn bits_behind_the_prefix_do_not_count() {
    let mut trie = ClaimTrie::new();
    trie.insert(&range(&[10, 99, 99, 99], 8), 0);
    assert_eq!(trie.longest_match(&address(&[10, 1, 2, 3])), Some(0));
    trie.insert(&range(&[10, 0, 0, 0], 8), 1);
    assert_eq!(trie.longest_match(&address(&[10, 1, 2, 3])), Some(1));
}

#[test]
fn prefix_need_not_end_with_a_byte() {
    let mut trie = ClaimTrie::new();
    trie.insert(&range(&[172, 16, 0, 0], 12), 0);
    assert_eq!(trie.longest_match(&address(&[172, 31, 255, 255])), Some(0));
    assert_eq!(trie.longest_match(&address(&[172, 32, 0, 0])), None);
    assert_eq!(trie.longest_match(&address(&[172, 15, 0, 0])), None);
}

#[test]
fn long_addresses_are_matched_to_the_last_bit() {
    let mut trie = ClaimTrie::new();
    let mut last = [0xabu8; 16];
    trie.insert(&range(&last, 127), 1);
    trie.insert(&range(&last, 128), 2);
    assert_eq!(trie.longest_match(&address(&last)), Some(2));
    last[15] = 0xaa;
    assert_eq!(trie.longest_match(&address(&last)), Some(1));
    last[15] = 0xa9;
    assert_eq!(trie.longest_match(&address(&last)), None);
}

#[test]
fn prefixes_match_addresses_of_any_length() {
    let mut trie = ClaimTrie::new();
    trie.insert(&range(&[10, 0, 0, 0], 8), 0);
    assert_eq!(trie.longest_match(&address(&[10, 0, 0, 0, 0, 1])), Some(0));
    assert_eq!(trie.longest_match(&address(&[10])), Some(0));
    assert_eq!(trie.longest_match(&address(&[])), None);
}

#[test]
fn inserting_leaves_other_prefixes() {
    let mut trie = ClaimTrie::new();
    trie.insert(&range(&[10, 1, 0, 0], 16), 1);
    trie.insert(&range(&[10, 0, 0, 0], 8), 0);
    trie.insert(&range(&[11, 0, 0, 0], 8), 2);
    assert_eq!(trie.longest_match(&address(&[10, 1, 9, 9])), Some(1));
    assert_eq!(trie.longest_match(&address(&[10, 2, 9, 9])), Some(0));
    assert_eq!(trie.longest_match(&address(&[11, 1, 9, 9])), Some(2));
}

#[test]
fn empty_prefix_covers_everything() {
    let mut trie = ClaimTrie::new();
    trie.insert(&range(&[1, 2, 3, 4], 0), 5);
    assert_eq!(trie.longest_match(&address(&[])), Some(5));
    assert_eq!(trie.longest_match(&address(&[255; 16])), Some(5));
    trie.clear();
    assert_eq!(trie.longest_match(&address(&[])), None);
}

#[test]
fn base_without_bytes_covers_everything() {
    let mut trie = ClaimTrie::new();
    trie.insert(&range(&[], 24), 5);
    assert_eq!(trie.longest_match(&address(&[])), Some(5));
    assert_eq!(trie.longest_match(&address(&[10, 1, 2, 3])), Some(5));
}
