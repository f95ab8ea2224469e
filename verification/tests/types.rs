use claim_table::state::{deadline, remaining};
use claim_table::types::{Address, PeerAddr, Range};

/// An address with zeros behind its bytes.
fn address(bytes: &[u8]) -> Address {
    let mut data = [0u8; 16];
    data[..bytes.len()].copy_from_slice(bytes);
    Address { data, len: bytes.len() as u8 }
}

#[test]
fn address_bits_start_with_the_most_significant() {
    let addr = address(&[0b1000_0001, 0b0100_0000]);
    let bits: Vec<bool> = (0..16).map(|idx| addr.bit(idx)).collect();
    let set: Vec<usize> = (0..16).filter(|idx| bits[*idx]).collect();
    assert_eq!(set, vec![0, 7, 9]);
}

#[test]
fn address_key_is_the_number_its_bytes_write_down() {
    assert_eq!(address(&[]).key(), (0, 0));
    assert_eq!(address(&[10, 1, 2, 3]).key(), (4, 0x0a01_0203));
    assert_eq!(address(&[0xff; 16]).key(), (16, u128::MAX));
    assert_eq!(address(&[0, 0, 0, 1, 2, 3]).key(), (6, 0x0001_0203));
}

#[test]
fn address_comes_back_from_its_key() {
    for bytes in [&[][..], &[10, 1, 2, 3], &[0, 0, 0, 1, 2, 3], &[0xfe; 16], &[0, 255]] {
        let addr = address(bytes);
        let back = Address::from_key(addr.key());
        assert_eq!(back.data, addr.data);
        assert_eq!(back.len, addr.len);
    }
}

#[test]
fn address_length_tells_keys_apart() {
    assert_ne!(address(&[0, 1]).key(), address(&[1]).key());
    assert!(address(&[0, 1]) != address(&[1]));
    assert!(address(&[1]) != address(&[1, 0]));
}

#[test]
fn bytes_behind_the_address_do_not_count() {
    let clean = address(&[10, 0, 0, 1]);
    let mut dirty = clean;
    dirty.data[9] = 77;
    assert!(clean == dirty);
    assert_eq!(clean.key(), dirty.key());
    let a = Range { base: clean, prefix_len: 8 };
    assert!(a == Range { base: dirty, prefix_len: 8 });
    assert!(a != Range { base: dirty, prefix_len: 9 });
    assert!(a != Range { base: address(&[10, 0, 0, 2]), prefix_len: 8 });
}

#[test]
fn peers_differ_in_everything_a_socket_address_holds() {
    let peer = PeerAddr::V6 { ip: 1, port: 2, flowinfo: 3, scope_id: 4 };
    assert_eq!(peer, PeerAddr::V6 { ip: 1, port: 2, flowinfo: 3, scope_id: 4 });
    assert_ne!(peer, PeerAddr::V6 { ip: 1, port: 2, flowinfo: 3, scope_id: 5 });
    assert_ne!(peer, PeerAddr::V6 { ip: 1, port: 2, flowinfo: 0, scope_id: 4 });
    assert_ne!(peer, PeerAddr::V4 { ip: 1, port: 2 });
    assert_ne!(PeerAddr::V4 { ip: 1, port: 1 }, PeerAddr::V4 { ip: 1, port: 2 });
}

#[test]
fn deadlines_are_sums() {
    assert_eq!(deadline(1000, 60), 1060);
    assert_eq!(deadline(-5, 3), -2);
    assert_eq!(deadline(i64::MAX - 1, 1), i64::MAX);
    assert_eq!(deadline(i64::MAX, 1), i64::MIN);
    assert_eq!(deadline(0, u32::MAX), 4294967295);
}

#[test]
fn remaining_times_are_differences() {
    assert_eq!(remaining(1060, 1000), 60);
    assert_eq!(remaining(0, 1000), -1000);
    assert_eq!(remaining(0, i64::MIN), i64::MIN);
    assert_eq!(remaining(i64::MIN, 1), i64::MAX);
}
