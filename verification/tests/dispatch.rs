use ndn_forwarder::dispatch::{dispatch_udp, Route, BROADCAST_NAME_LENGTH};
use ndn_forwarder::pipeline::Outcome;
use ndn_forwarder::tlv::tlv::encode;

fn interest_of(name: &[u8], rest: &[u8]) -> Vec<u8> {
    let mut body = encode(7, name);
    body.extend_from_slice(rest);
    encode(5, &body)
}

fn data_of(name: &[u8]) -> Vec<u8> {
    let mut body = encode(7, name);
    body.extend_from_slice(&encode(21, b"x"));
    encode(6, &body)
}

#[test]
fn shard_is_the_byte_sum_modulo_the_count() {
    let name = [8u8, 1, 97];
    let wire = interest_of(&name, &[10, 4, 0, 0, 0, 1]);
    assert_eq!(dispatch_udp(&wire, 4), Route::Shard((8 + 1 + 97) % 4));
    assert_eq!(dispatch_udp(&wire, 7), Route::Shard((8 + 1 + 97) % 7));
    assert_eq!(dispatch_udp(&wire, 1), Route::Shard(0));
    assert_eq!(dispatch_udp(&wire, 1000), Route::Shard(106));
}

#[test]
fn sharding_is_deterministic_and_in_range() {
    for shards in 1..9usize {
        for seed in 0..40u8 {
            let mut name = vec![8u8, 3, seed, seed.wrapping_mul(7), 255];
            name.extend_from_slice(&[8, 1, seed]);
            let wire = interest_of(&name, &[10, 4, 0, 0, 0, seed]);
            let first = dispatch_udp(&wire, shards);
            for _ in 0..3 {
                assert_eq!(dispatch_udp(&wire, shards), first);
            }
            match first {
                Route::Shard(i) => assert!(i < shards),
                _ => panic!("a short name goes to one shard"),
            }
        }
    }
}

#[test]
fn interest_and_data_of_one_name_meet() {
    let name = [8u8, 2, 104, 105, 8, 1, 33];
    let a = dispatch_udp(&interest_of(&name, &[10, 4, 9, 9, 9, 9, 33, 0]), 4);
    let b = dispatch_udp(&data_of(&name), 4);
    assert_eq!(a, b);
    assert_eq!(a, Route::Shard((8 + 2 + 104 + 105 + 8 + 1 + 33) % 4));
}

#[test]
fn empty_name_goes_to_shard_zero() {
    assert_eq!(dispatch_udp(&interest_of(&[], &[]), 4), Route::Shard(0));
}

#[test]
fn name_of_thirty_bytes_is_hashed_and_of_thirty_one_is_broadcast() {
    assert_eq!(BROADCAST_NAME_LENGTH, 30);
    let mut name = vec![8u8, 28];
    name.extend_from_slice(&[1u8; 28]);
    assert_eq!(name.len(), 30);
    assert_eq!(dispatch_udp(&interest_of(&name, &[]), 5), Route::Shard((8 + 28 + 28) % 5));
    let mut long = vec![8u8, 29];
    long.extend_from_slice(&[1u8; 29]);
    assert_eq!(long.len(), 31);
    assert_eq!(dispatch_udp(&interest_of(&long, &[]), 5), Route::Broadcast);
    assert_eq!(dispatch_udp(&data_of(&long), 5), Route::Broadcast);
}

#[test]
fn management_prefix_goes_to_management() {
    let prefix = [8u8, 9, 108, 111, 99, 97, 108, 104, 111, 115, 116, 8, 3, 110, 102, 100];
    assert_eq!(&prefix[2..11], b"localhost");
    assert_eq!(&prefix[13..], b"nfd");
    assert_eq!(dispatch_udp(&interest_of(&prefix, &[]), 4), Route::Management);
    let mut longer = prefix.to_vec();
    longer.extend_from_slice(&[8, 3, 102, 105, 98]);
    assert_eq!(dispatch_udp(&interest_of(&longer, &[]), 4), Route::Management);
    let mut long = prefix.to_vec();
    long.extend_from_slice(&[8, 20]);
    long.extend_from_slice(&[0u8; 20]);
    assert_eq!(dispatch_udp(&interest_of(&long, &[]), 4), Route::Management);
    let mut other = prefix.to_vec();
    other[15] = 101;
    assert_eq!(
        dispatch_udp(&interest_of(&other, &[]), 4),
        Route::Shard(other.iter().map(|b| *b as usize).sum::<usize>() % 4)
    );
    assert!(matches!(dispatch_udp(&interest_of(&prefix[..15], &[]), 4), Route::Shard(_)));
}

#[test]
fn what_is_no_interest_or_data_is_dropped() {
    assert_eq!(dispatch_udp(&[], 4), Route::Drop(Outcome::Malformed));
    assert_eq!(dispatch_udp(&[5], 4), Route::Drop(Outcome::Malformed));
    assert_eq!(dispatch_udp(&[7, 0], 4), Route::Drop(Outcome::UnknownType));
    assert_eq!(dispatch_udp(&[100, 2, 7, 0], 4), Route::Drop(Outcome::UnknownType));
    assert_eq!(dispatch_udp(&[5, 0], 4), Route::Drop(Outcome::Malformed));
    assert_eq!(dispatch_udp(&[5, 1, 7], 4), Route::Drop(Outcome::Malformed));
    assert_eq!(dispatch_udp(&[6, 2, 8, 0], 4), Route::Drop(Outcome::NotAName));
}

#[test]
fn name_longer_than_the_packet_is_dropped() {
    assert_eq!(dispatch_udp(&[5, 5, 7, 3, 8, 1], 4), Route::Drop(Outcome::Malformed));
    assert_eq!(dispatch_udp(&[5, 5, 7, 3, 8, 1, 97], 4), Route::Shard(106 % 4));
    let mut wire = vec![5u8, 12, 7, 255];
    wire.extend_from_slice(&[255u8; 8]);
    assert_eq!(dispatch_udp(&wire, 4), Route::Drop(Outcome::Malformed));
}

#[test]
fn truncated_packets_are_dropped() {
    let name = [8u8, 2, 104, 105, 8, 1, 33];
    let wire = interest_of(&name, &[]);
    for k in 0..wire.len() {
        assert!(matches!(dispatch_udp(&wire[..k], 4), Route::Drop(_)));
    }
}
