//! The way of an Interest through a worker: decoding, the checks, the table,
//! the strategy, the queue.

use vstd::prelude::*;
use vstd::slice::{slice_subrange, slice_to_vec};
use crate::face::{Face, UdpPacket};
use crate::hash::{hash64, hash64_with_seed, metro_hash64, metro_hash64_with_seed};
use crate::pipeline::best_route::{best_route, BestRouteStrategy};
use crate::pipeline::strategy::Strategy;
use crate::pipeline::{read_name, spec_name, Interest, Outcome};
use crate::table::pit::{with_out_record, InRecord, NextHop, NodeView, OutRecord};
use crate::table::trie::{
    grown, in_records_before, inherited_nexthops, lemma_inherited_stable, lemma_same_shape,
    lemma_walk_in_range, name_path, node_kept, out_records_before, routes_kept, same_shape,
    split_name, walk,
};
use crate::table::{settings_kept, Table, TableView};
use crate::tlv::vec_decode::{
    be_uint, lemma_tlo_offset, read_nni, read_tlo, read_u32, read_u8, spec_read_nni, spec_read_tlo,
};
use crate::tlv::{Type, TLO};

verus! {

/// The out-records of a node after a request with `nonce` went out along
/// each route of `hops`, first to last. A record is kept under the hash of
/// its face's text form.
pub open spec fn spec_out_records(records: Map<u64, OutRecord>, nonce: u32, hops: Seq<NextHop>) -> Map<
    u64,
    OutRecord,
>
    decreases hops.len(),
{
    if hops.len() == 0 {
        records
    } else {
        let hop = hops.last();
        with_out_record(
            spec_out_records(records, nonce, hops.drop_last()),
            metro_hash64(hop.addr.text()),
            hop.addr,
            nonce,
        )
    }
}

/// A copy of the packet `data` for the face of each route of `hops`.
pub open spec fn packets_for(data: Seq<u8>, hops: Seq<NextHop>) -> Seq<(Seq<u8>, Face)> {
    hops.map_values(|hop: NextHop| (data, hop.addr))
}

/// The table `new` is `old` after the packet `data` went out along `hops`
/// for the Interest at node `id`: the node has the out-records of it, the
/// queue has a copy of the packet for the face of each route, in their
/// order, and nothing else has changed.
pub open spec fn outgoing(
    old: TableView,
    new: TableView,
    data: Seq<u8>,
    id: int,
    nonce: u32,
    hops: Seq<NextHop>,
) -> bool {
    &&& settings_kept(old, new)
    &&& new.dnl == old.dnl
    &&& new.pit == old.pit.update(
        id,
        NodeView { out_records: spec_out_records(old.pit[id].out_records, nonce, hops), ..old.pit[id] },
    )
    &&& new.sent == old.sent + packets_for(data, hops)
}

/// Notes a request sent along each of `nexthops` at the Interest's node and
/// queues a copy of the packet for each.
pub fn on_outgoing_interest(
    table: &mut Table,
    packet: &UdpPacket,
    interest: Interest,
    nexthops: Vec<NextHop>,
)
    requires
        old(table).wf(),
        interest.nonce is Some,
        interest.pit_node is Some,
        interest.pit_node.unwrap() < old(table)@.pit.len(),
    ensures
        final(table).wf(),
        outgoing(
            old(table)@,
            final(table)@,
            packet.data@,
            interest.pit_node.unwrap() as int,
            interest.nonce.unwrap(),
            nexthops@,
        ),
{
    let node: usize = interest.pit_node.unwrap();
    let nonce: u32 = interest.nonce.unwrap();
    let ghost id = node as int;
    let ghost before = table@;
    let mut i: usize = 0;
    proof {
        assert(table@.pit =~= before.pit.update(id, before.pit[id]));
        assert(packets_for(packet.data@, nexthops@.take(0)) =~= Seq::<(Seq<u8>, Face)>::empty());
        assert(before.sent + Seq::<(Seq<u8>, Face)>::empty() =~= before.sent);
    }
    while i < nexthops.len()
        invariant
            i <= nexthops.len(),
            table.wf(),
            before == old(table)@,
            table.dnl == old(table).dnl,
            table.forward_aggregated == old(table).forward_aggregated,
            id == node,
            0 <= id < before.pit.len(),
            outgoing(before, table@, packet.data@, id, nonce, nexthops@.take(i as int)),
        decreases nexthops.len() - i,
    {
        let nexthop: NextHop = nexthops[i];
        let text = nexthop.addr.to_text();
        let key: u64 = hash64(text.as_slice());
        table.pit.record_out(node, key, nexthop.addr, nonce);
        let ghost queued = table@.sent;
        let copy = packet.data.clone();
        table.send_queue.push((copy, nexthop.addr));
        proof {
            assert(table@.sent =~= queued.push((packet.data@, nexthop.addr)));
            let done = nexthops@.take(i as int);
            let more = nexthops@.take(i + 1);
            assert(more.drop_last() =~= done);
            assert(more.last() == nexthop);
            assert(table@.pit =~= before.pit.update(
                id,
                NodeView {
                    out_records: spec_out_records(before.pit[id].out_records, nonce, more),
                    ..before.pit[id]
                },
            ));
            assert(packets_for(packet.data@, more) =~= packets_for(packet.data@, done).push(
                (packet.data@, nexthop.addr),
            ));
            assert(table@.sent =~= before.sent + packets_for(packet.data@, more));
        }
        i = i + 1;
    }
    proof {
        assert(nexthops@.take(i as int) =~= nexthops@);
    }
}

/// The record of an Interest of which only the face is known.
pub open spec fn blank_record(face: Face) -> InRecord {
    InRecord {
        expiry: 0,
        face,
        can_be_prefix: None,
        must_be_fresh: None,
        nonce: None,
        lifetime: None,
        hop_limit: None,
    }
}

/// The record that `interest` leaves when it came through `face`.
pub open spec fn record_of(interest: Interest, face: Face) -> InRecord {
    InRecord {
        expiry: 0,
        face,
        can_be_prefix: interest.can_be_prefix,
        must_be_fresh: interest.must_be_fresh,
        nonce: interest.nonce,
        lifetime: interest.lifetime,
        hop_limit: interest.hop_limit,
    }
}

/// `record` after the field `tlo` with the bytes `value` from its value on:
/// the two flags are set by their presence, the nonce is four bytes, the
/// lifetime an integer of the declared length, the hop limit one byte. A
/// field of any other type changes nothing. `None` where the value is too
/// short or the lifetime's length is none of 1, 2, 4 and 8.
pub open spec fn with_field(record: InRecord, tlo: TLO, value: Seq<u8>) -> Option<InRecord> {
    if tlo.t == 33 {
        Some(InRecord { can_be_prefix: Some(true), ..record })
    } else if tlo.t == 18 {
        Some(InRecord { must_be_fresh: Some(true), ..record })
    } else if tlo.t == 10 {
        if value.len() < 4 {
            None
        } else {
            Some(InRecord { nonce: Some(be_uint(value, 0, 4) as u32), ..record })
        }
    } else if tlo.t == 12 {
        match spec_read_nni(value, tlo.l) {
            Ok(v) => Some(InRecord { lifetime: Some(v), ..record }),
            Err(_) => None,
        }
    } else if tlo.t == 34 {
        if value.len() < 1 {
            None
        } else {
            Some(InRecord { hop_limit: Some(value[0]), ..record })
        }
    } else {
        Some(record)
    }
}

/// `record` after the fields of `data` from offset `o` up to `end`, one
/// behind the other. `None` where a field does not decode or starts behind
/// the end of `data`.
pub open spec fn spec_fields(data: Seq<u8>, o: int, end: int, record: InRecord) -> Option<InRecord>
    decreases
        (if o < end {
            end - o
        } else {
            0
        }),
    via spec_fields_decreases
{
    if o >= end {
        Some(record)
    } else if o < 0 || o > data.len() {
        None
    } else {
        match spec_read_tlo(data.skip(o)) {
            Err(_) => None,
            Ok(tlo) => match with_field(record, tlo, data.skip(o + tlo.o)) {
                None => None,
                Some(next) => spec_fields(data, o + tlo.o + tlo.l, end, next),
            },
        }
    }
}

#[via_fn]
proof fn spec_fields_decreases(data: Seq<u8>, o: int, end: int, record: InRecord) {
    if o < end && 0 <= o <= data.len() && spec_read_tlo(data.skip(o)) is Ok {
        lemma_tlo_offset(data.skip(o));
    }
}

/// What an Interest that passed the checks does to the table. The walk of
/// its name adds the nodes that were missing. A name with a component that
/// does not decode ends there. Else the node of the name gets the Interest's
/// record behind its pending requests, and the best-route strategy sends
/// the packet along the cheapest of the routes that the name inherits: the
/// node gets the out-record, the queue the packet. Where the table is set
/// not to forward aggregated Interests, an Interest whose node had pending
/// requests already goes no further than the record. No other node changes.
pub open spec fn resolved(
    old: TableView,
    new: TableView,
    data: Seq<u8>,
    name: Seq<u8>,
    record: InRecord,
    r: Outcome,
) -> bool {
    let (components, err) = split_name(name);
    let path = name_path(components);
    &&& settings_kept(old, new)
    &&& grown(old.pit, new.pit, components)
    &&& if err is Some {
        &&& r == Outcome::BadName
        &&& new.sent == old.sent
        &&& forall|i: int| 0 <= i < new.pit.len() ==> node_kept(old.pit, new.pit, i)
    } else {
        let id = walk(new.pit, path).unwrap() as int;
        let aggregated = !old.forward_aggregated && in_records_before(old.pit, id).len() > 0;
        let chosen = if aggregated {
            Seq::empty()
        } else {
            best_route(inherited_nexthops(new.pit, path))
        };
        &&& 0 <= id < new.pit.len()
        &&& forall|i: int| 0 <= i < new.pit.len() && i != id ==> node_kept(old.pit, new.pit, i)
        &&& routes_kept(old.pit, new.pit, id)
        &&& new.pit[id].in_records == in_records_before(old.pit, id).push(record)
        &&& new.pit[id].out_records == spec_out_records(
            out_records_before(old.pit, id),
            record.nonce.unwrap(),
            chosen,
        )
        &&& new.sent == old.sent + packets_for(data, chosen)
        &&& r == if aggregated {
            Outcome::Aggregated
        } else if chosen.len() == 0 {
            Outcome::NoRoute
        } else {
            Outcome::Forwarded
        }
    }
}

/// What the Interest `data`, which came through `face`, does to the table,
/// and what becomes of it. The packet is dropped and the table stays as it
/// is where the name or a field does not decode, where the hop limit is
/// zero, where there is no nonce, and where the dead nonce list has the hash
/// of the name under the nonce. Else that hash goes into the list and the
/// table is asked for the name.
pub open spec fn interest_processed(
    old: TableView,
    new: TableView,
    data: Seq<u8>,
    face: Face,
    p_tlo: TLO,
    r: Outcome,
) -> bool {
    match spec_name(data, p_tlo) {
        Err(reason) => r == reason && new == old,
        Ok((a, b)) => match spec_fields(data, b, p_tlo.o + p_tlo.l, blank_record(face)) {
            None => r == Outcome::Malformed && new == old,
            Some(record) => {
                let name = data.subrange(a, b);
                if record.hop_limit == Some(0u8) {
                    r == Outcome::HopLimit && new == old
                } else if record.nonce is None {
                    r == Outcome::NoNonce && new == old
                } else {
                    let seen = metro_hash64_with_seed(name, record.nonce.unwrap());
                    if old.dnl.contains(seen) {
                        r == Outcome::Loop && new == old
                    } else {
                        new.dnl == old.dnl.push(seen) && resolved(old, new, data, name, record, r)
                    }
                }
            },
        },
    }
}

/// Takes the Interest `packet`, whose outer type and length are `p_tlo`,
/// through the pipeline.
pub fn process_interest(table: &mut Table, packet: &UdpPacket, p_tlo: TLO) -> (r: Outcome)
    requires
        old(table).wf(),
    ensures
        final(table).wf(),
        interest_processed(old(table)@, final(table)@, packet.data@, packet.addr, p_tlo, r),
{
    let data = packet.data.as_slice();
    let (a, b) = match read_name(data, &p_tlo) {
        Ok(x) => x,
        Err(e) => {
            return e;
        },
    };
    let name = slice_subrange(data, a, b);
    let mut interest = Interest::new(slice_to_vec(name), p_tlo);
    let end: u128 = p_tlo.o as u128 + p_tlo.l as u128;
    let mut o: u128 = b as u128;
    let ghost face = packet.addr;
    while o < end
        invariant
            *table == *old(table),
            table.wf(),
            data@ == packet.data@,
            face == packet.addr,
            spec_name(data@, p_tlo) == Ok::<(int, int), Outcome>((a as int, b as int)),
            name@ == data@.subrange(a as int, b as int),
            end == p_tlo.o + p_tlo.l,
            b <= o,
            o < 0x4_0000_0000_0000_0000,
            interest.name@ == name@,
            interest.nexthops is None,
            spec_fields(data@, b as int, end as int, blank_record(face)) == spec_fields(
                data@,
                o as int,
                end as int,
                record_of(interest, face),
            ),
        decreases
            (if o < end {
                end - o
            } else {
                0
            }),
    {
        if o > data.len() as u128 {
            return Outcome::Malformed;
        }
        let at: usize = o as usize;
        let rest = slice_subrange(data, at, data.len());
        assert(rest@ =~= data@.skip(o as int));
        let tlo = match read_tlo(rest) {
            Ok(t) => t,
            Err(_) => {
                return Outcome::Malformed;
            },
        };
        proof {
            lemma_tlo_offset(rest@);
        }
        let value = slice_subrange(rest, tlo.o, rest.len());
        assert(value@ =~= data@.skip(o + tlo.o));
        match Type::from_code(tlo.t) {
            Some(Type::CanBePrefix) => {
                interest.can_be_prefix = Some(true);
            },
            Some(Type::MustBeFresh) => {
                interest.must_be_fresh = Some(true);
            },
            Some(Type::Nonce) => {
                match read_u32(value) {
                    Ok(nonce) => {
                        interest.nonce = Some(nonce);
                    },
                    Err(_) => {
                        return Outcome::Malformed;
                    },
                }
            },
            Some(Type::InterestLifetime) => {
                match read_nni(value, tlo.l) {
                    Ok(lifetime) => {
                        interest.lifetime = Some(lifetime);
                    },
                    Err(_) => {
                        return Outcome::Malformed;
                    },
                }
            },
            Some(Type::HopLimit) => {
                match read_u8(value) {
                    Ok(hop_limit) => {
                        interest.hop_limit = Some(hop_limit);
                    },
                    Err(_) => {
                        return Outcome::Malformed;
                    },
                }
            },
            _ => {},
        }
        o = o + tlo.o as u128 + tlo.l as u128;
    }
    match interest.hop_limit {
        Some(hop_limit) => {
            if hop_limit == 0 {
                return Outcome::HopLimit;
            }
        },
        None => {},
    }
    let nonce: u32 = match interest.nonce {
        Some(nonce) => nonce,
        None => {
            return Outcome::NoNonce;
        },
    };
    let nonce_hash: u64 = hash64_with_seed(name, nonce);
    if table.dnl.contains(nonce_hash) {
        return Outcome::Loop;
    }
    table.dnl.insert(nonce_hash);
    let ghost record = record_of(interest, face);
    let ghost components = split_name(name@).0;
    let ghost path = name_path(components);
    match table.pit.insert_or_get(&interest.name) {
        Ok((node, strategy, nexthops)) => {
            let ghost walked = table@.pit;
            proof {
                lemma_walk_in_range(walked, path);
            }
            let is_new: bool = table.pit.node(node).in_records.len() == 0;
            let entry = InRecord::new(&interest, packet.addr);
            table.pit.add_in_record(node, entry);
            interest.strategy = Some(strategy);
            interest.nexthops = Some(nexthops);
            interest.pit_node = Some(node);
            let r = if is_new || table.forward_aggregated {
                on_cs_miss(table, packet, interest)
            } else {
                proof {
                    let id = node as int;
                    assert(table@.pit =~= table@.pit.update(id, table@.pit[id]));
                    assert(table@.sent + packets_for(packet.data@, Seq::empty()) =~= table@.sent);
                }
                Outcome::Aggregated
            };
            proof {
                let last = table@.pit;
                assert(same_shape(walked, last));
                lemma_same_shape(old(table)@.pit, walked, last, components);
                assert forall|i: int| 0 <= i < walked.len() implies routes_kept(walked, last, i) by {}
                lemma_inherited_stable(walked, last, path);
                assert(node_kept(old(table)@.pit, walked, node as int));
                assert forall|i: int| 0 <= i < last.len() && i != node implies node_kept(
                    old(table)@.pit,
                    last,
                    i,
                ) by {
                    assert(node_kept(old(table)@.pit, walked, i));
                }
            }
            r
        },
        Err(_) => Outcome::BadName,
    }
}

/// What is done with an Interest that no stored Data answers, which is every
/// Interest: the forwarder keeps no Data. The best-route strategy takes it.
fn on_cs_miss(table: &mut Table, packet: &UdpPacket, interest: Interest) -> (r: Outcome)
    requires
        old(table).wf(),
        interest.nexthops is Some,
        interest.nonce is Some,
        interest.pit_node is Some,
        interest.pit_node.unwrap() < old(table)@.pit.len(),
    ensures
        final(table).wf(),
        outgoing(
            old(table)@,
            final(table)@,
            packet.data@,
            interest.pit_node.unwrap() as int,
            interest.nonce.unwrap(),
            best_route(interest.nexthops.unwrap()@),
        ),
        r == if best_route(interest.nexthops.unwrap()@).len() == 0 {
            Outcome::NoRoute
        } else {
            Outcome::Forwarded
        },
{
    BestRouteStrategy::after_receive_interest(table, packet, interest)
}

} // verus!
