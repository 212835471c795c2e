use ndn_forwarder::face::Face;
use ndn_forwarder::table::dnl::DeadNonceList;
use ndn_forwarder::table::pit::{InRecord, NextHop, PITNode, PIT};
use ndn_forwarder::table::{Table, DNL_MAX_LENGTH};
use ndn_forwarder::tlv::DecodeError;

fn component(text: &str) -> Vec<u8> {
    let mut out = vec![8u8, text.len() as u8];
    out.extend_from_slice(text.as_bytes());
    out
}

fn plain_name(parts: &[&str]) -> Vec<u8> {
    let mut out = Vec::new();
    for part in parts {
        out.extend_from_slice(&component(part));
    }
    out
}

fn face_at(last: u32, port: u16) -> Face {
    Face { ip: 0x0a00_0000 + last, port }
}

#[test]
fn dnl_starts_empty() {
    let list = DeadNonceList::new(4);
    assert!(!list.contains(0));
    assert!(!list.contains(17));
}

#[test]
fn dnl_insert_then_contains() {
    let mut list = DeadNonceList::new(4);
    list.insert(17);
    assert!(list.contains(17));
    assert!(!list.contains(18));
}

#[test]
fn dnl_bound_after_clean() {
    let max_len = 8usize;
    let extra = 5u64;
    let mut list = DeadNonceList::new(max_len);
    for h in 0..(max_len as u64 + extra) {
        list.insert(1000 + h);
    }
    for h in 0..(max_len as u64 + extra) {
        assert!(list.contains(1000 + h));
    }
    list.clean();
    for h in 0..extra {
        assert!(!list.contains(1000 + h));
    }
    for h in extra..(max_len as u64 + extra) {
        assert!(list.contains(1000 + h));
    }
    assert!(!list.contains(999));
}

#[test]
fn dnl_insert_does_not_clean() {
    let mut list = DeadNonceList::new(2);
    for h in 0..10u64 {
        list.insert(h);
    }
    for h in 0..10u64 {
        assert!(list.contains(h));
    }
}

#[test]
fn dnl_second_insert_keeps_the_place() {
    let mut list = DeadNonceList::new(2);
    list.insert(1);
    list.insert(2);
    list.insert(1);
    list.insert(3);
    list.clean();
    assert!(!list.contains(1));
    assert!(list.contains(2));
    assert!(list.contains(3));
}

#[test]
fn dnl_clean_below_bound_keeps_all() {
    let mut list = DeadNonceList::new(3);
    list.insert(5);
    list.insert(6);
    list.clean();
    assert!(list.contains(5));
    assert!(list.contains(6));
    list.insert(7);
    list.clean();
    assert!(list.contains(5));
}

#[test]
fn dnl_zero_bound_cleans_everything() {
    let mut list = DeadNonceList::new(0);
    list.insert(5);
    list.clean();
    assert!(!list.contains(5));
}

#[test]
fn node_starts_empty() {
    let node = PITNode::new(vec![8, 1, 97]);
    assert_eq!(node.name, vec![8, 1, 97]);
    assert!(node.children.is_empty());
    assert!(node.in_records.is_empty());
    assert!(node.out_records.is_empty());
    assert_eq!(node.strategy, 0);
    assert!(node.nexthops.is_empty());
}

#[test]
fn insert_hop_appends_and_updates() {
    let mut node = PITNode::new(Vec::new());
    node.insert_hop(NextHop { addr: face_at(1, 6363), cost: 5 });
    node.insert_hop(NextHop { addr: face_at(2, 6363), cost: 7 });
    node.insert_hop(NextHop { addr: face_at(1, 6363), cost: 9 });
    assert_eq!(node.nexthops.len(), 2);
    assert_eq!(node.nexthops[0].addr, face_at(1, 6363));
    assert_eq!(node.nexthops[0].cost, 9);
    assert_eq!(node.nexthops[1].addr, face_at(2, 6363));
    assert_eq!(node.nexthops[1].cost, 7);
    node.insert_hop(NextHop { addr: face_at(1, 6364), cost: 1 });
    assert_eq!(node.nexthops.len(), 3);
    assert_eq!(node.nexthops[2].cost, 1);
}

#[test]
fn pit_starts_with_the_root() {
    let pit = PIT::new();
    assert_eq!(pit.len(), 1);
    assert!(pit.node(0).name.is_empty());
    assert!(pit.node(0).children.is_empty());
    let (id, strategy, nexthops) = pit.get(&Vec::new()).unwrap();
    assert_eq!(id, 0);
    assert_eq!(strategy, 0);
    assert!(nexthops.is_empty());
}

#[test]
fn pit_insert_makes_one_node_per_component() {
    let mut pit = PIT::new();
    let (id, strategy, nexthops) = pit.insert_or_get(&plain_name(&["a", "b", "c"])).unwrap();
    assert_eq!(pit.len(), 4);
    assert_eq!(id, 3);
    assert_eq!(strategy, 0);
    assert!(nexthops.is_empty());
    assert_eq!(pit.node(1).name, component("a"));
    assert_eq!(pit.node(2).name, component("b"));
    assert_eq!(pit.node(3).name, component("c"));
    let (again, _, _) = pit.insert_or_get(&plain_name(&["a", "b", "c"])).unwrap();
    assert_eq!(again, 3);
    assert_eq!(pit.len(), 4);
    let (sibling, _, _) = pit.insert_or_get(&plain_name(&["a", "x"])).unwrap();
    assert_eq!(sibling, 4);
    assert_eq!(pit.len(), 5);
    assert_eq!(pit.node(1).children.len(), 2);
}

#[test]
fn pit_children_are_keyed_by_the_hash_of_the_whole_component() {
    let mut pit = PIT::new();
    let (id, _, _) = pit.insert_or_get(&plain_name(&["a"])).unwrap();
    let key = fasthash::metro::hash64(component("a"));
    assert_eq!(pit.node(0).children.get(&key), Some(&id));
    assert_ne!(key, fasthash::metro::hash64(b"a"));
    let mut typed = vec![1u8, 1];
    typed.extend_from_slice(b"a");
    let (other, _, _) = pit.insert_or_get(&typed).unwrap();
    assert_ne!(other, id);
}

#[test]
fn longest_prefix_inheritance() {
    let mut pit = PIT::new();
    let (a, _, _) = pit.insert_or_get(&plain_name(&["a"])).unwrap();
    pit.insert_hop(a, NextHop { addr: face_at(1, 6363), cost: 10 });
    let (ab, _, _) = pit.insert_or_get(&plain_name(&["a", "b"])).unwrap();
    pit.insert_hop(ab, NextHop { addr: face_at(2, 6363), cost: 20 });

    let (_, _, hops) = pit.insert_or_get(&plain_name(&["a", "b", "c"])).unwrap();
    assert_eq!(hops.len(), 1);
    assert_eq!(hops[0].addr, face_at(2, 6363));
    assert_eq!(hops[0].cost, 20);

    let (_, _, hops) = pit.insert_or_get(&plain_name(&["a", "x"])).unwrap();
    assert_eq!(hops.len(), 1);
    assert_eq!(hops[0].addr, face_at(1, 6363));
    assert_eq!(hops[0].cost, 10);

    let (_, _, hops) = pit.get(&plain_name(&["a", "b", "c"])).unwrap();
    assert_eq!(hops[0].addr, face_at(2, 6363));
    let (_, _, hops) = pit.get(&plain_name(&["a", "x"])).unwrap();
    assert_eq!(hops[0].addr, face_at(1, 6363));
}

#[test]
fn a_node_does_not_inherit_from_itself() {
    let mut pit = PIT::new();
    let (a, _, _) = pit.insert_or_get(&plain_name(&["a"])).unwrap();
    pit.insert_hop(a, NextHop { addr: face_at(1, 6363), cost: 10 });
    let (ab, _, _) = pit.insert_or_get(&plain_name(&["a", "b"])).unwrap();
    pit.insert_hop(ab, NextHop { addr: face_at(2, 6363), cost: 20 });
    let (_, _, hops) = pit.get(&plain_name(&["a", "b"])).unwrap();
    assert_eq!(hops.len(), 1);
    assert_eq!(hops[0].addr, face_at(1, 6363));
    let (_, _, hops) = pit.get(&plain_name(&["a"])).unwrap();
    assert!(hops.is_empty());
}

#[test]
fn empty_nodes_do_not_hide_the_routes_above() {
    let mut pit = PIT::new();
    pit.insert_hop(0, NextHop { addr: face_at(9, 1), cost: 1 });
    let (_, _, hops) = pit.insert_or_get(&plain_name(&["p", "q", "r", "s"])).unwrap();
    assert_eq!(hops.len(), 1);
    assert_eq!(hops[0].addr, face_at(9, 1));
}

#[test]
fn pit_get_does_not_make_nodes() {
    let mut pit = PIT::new();
    pit.insert_or_get(&plain_name(&["a", "b"])).unwrap();
    assert!(pit.get(&plain_name(&["a", "c"])).is_none());
    assert!(pit.get(&plain_name(&["a", "b", "c"])).is_none());
    assert!(pit.get(&plain_name(&["z"])).is_none());
    assert_eq!(pit.len(), 3);
    assert_eq!(pit.get(&plain_name(&["a", "b"])).unwrap().0, 2);
    assert_eq!(pit.get(&plain_name(&["a"])).unwrap().0, 1);
}

#[test]
fn pit_get_of_a_malformed_name_is_none() {
    let mut pit = PIT::new();
    pit.insert_or_get(&plain_name(&["a", "b"])).unwrap();
    let mut cut = plain_name(&["a", "b"]);
    cut.pop();
    assert!(pit.get(&cut).is_none());
    let mut lone = plain_name(&["a"]);
    lone.push(8);
    assert!(pit.get(&lone).is_none());
}

#[test]
fn pit_insert_of_a_malformed_name_keeps_what_was_made() {
    let mut pit = PIT::new();
    let mut overrun = plain_name(&["a", "b"]);
    overrun.extend_from_slice(&[8, 5, 1, 2]);
    assert!(matches!(pit.insert_or_get(&overrun), Err(DecodeError::IncorrectNameEncoding)));
    assert_eq!(pit.len(), 3);
    assert_eq!(pit.get(&plain_name(&["a", "b"])).unwrap().0, 2);

    let mut cut = plain_name(&["c"]);
    cut.push(8);
    assert!(matches!(pit.insert_or_get(&cut), Err(DecodeError::UnexpectedEof)));
    assert_eq!(pit.len(), 4);
    assert_eq!(pit.get(&plain_name(&["c"])).unwrap().0, 3);
}

#[test]
fn pit_collects_the_nodes_of_all_prefixes() {
    let mut pit = PIT::new();
    pit.insert_or_get(&plain_name(&["p", "q"])).unwrap();
    pit.insert_or_get(&plain_name(&["p", "r"])).unwrap();
    assert_eq!(pit.get_all_can_be_pfx(&plain_name(&["p", "q"])), vec![1, 2]);
    assert_eq!(pit.get_all_can_be_pfx(&plain_name(&["p", "q", "z"])), vec![1, 2]);
    assert_eq!(pit.get_all_can_be_pfx(&plain_name(&["p", "r"])), vec![1, 3]);
    assert_eq!(pit.get_all_can_be_pfx(&plain_name(&["p"])), vec![1]);
    assert_eq!(pit.get_all_can_be_pfx(&plain_name(&["x", "q"])), Vec::<usize>::new());
    assert_eq!(pit.get_all_can_be_pfx(&Vec::new()), Vec::<usize>::new());
    let mut cut = plain_name(&["p", "q"]);
    cut.pop();
    assert_eq!(pit.get_all_can_be_pfx(&cut), vec![1]);
}

#[test]
fn pit_records_at_a_node() {
    let mut pit = PIT::new();
    let (id, _, _) = pit.insert_or_get(&plain_name(&["a"])).unwrap();
    let record = InRecord {
        expiry: 0,
        face: face_at(3, 1),
        can_be_prefix: Some(true),
        must_be_fresh: None,
        nonce: Some(7),
        lifetime: None,
        hop_limit: None,
    };
    pit.add_in_record(id, record);
    pit.add_in_record(id, InRecord { face: face_at(4, 1), ..record });
    assert_eq!(pit.node(id).in_records.len(), 2);
    assert_eq!(pit.node(id).in_records[0].face, face_at(3, 1));
    assert_eq!(pit.node(id).in_records[1].face, face_at(4, 1));

    pit.record_out(id, 99, face_at(5, 1), 7);
    pit.record_out(id, 99, face_at(6, 1), 8);
    assert_eq!(pit.node(id).out_records.len(), 1);
    let out = pit.node(id).out_records.get(&99).unwrap();
    assert_eq!(out.face, face_at(5, 1));
    assert_eq!(out.nonce, 8);
    assert_eq!(out.timestamp, 0);
}

#[test]
fn table_starts_empty_and_cleans_its_list() {
    let mut table = Table::new();
    assert_eq!(table.pit.len(), 1);
    assert!(table.send_queue.is_empty());
    for h in 0..(DNL_MAX_LENGTH as u64 + 3) {
        table.dnl.insert(h);
    }
    table.clean();
    assert!(!table.dnl.contains(0));
    assert!(!table.dnl.contains(2));
    assert!(table.dnl.contains(3));
    assert!(table.dnl.contains(DNL_MAX_LENGTH as u64 + 2));
}

#[test]
fn table_hands_out_its_queue() {
    let mut table = Table::new();
    table.send_queue.push((vec![1, 2], face_at(1, 1)));
    table.send_queue.push((vec![3], face_at(2, 2)));
    let out = table.take_outgoing();
    assert_eq!(out, vec![(vec![1, 2], face_at(1, 1)), (vec![3], face_at(2, 2))]);
    assert!(table.send_queue.is_empty());
    assert!(table.take_outgoing().is_empty());
}
