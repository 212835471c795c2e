//! The way of a Data packet through a worker: to everyone who asked for its
//! name or for a prefix of it.

use vstd::prelude::*;
use vstd::slice::{slice_subrange, slice_to_vec};
use crate::face::{Face, UdpPacket};
use crate::pipeline::{read_name, spec_name, Outcome};
use crate::table::pit::{InRecord, NodeView};
use crate::table::trie::{matching_nodes, name_path, split_name};
use crate::table::{queue_view, settings_kept, Table, TableView};
use crate::tlv::TLO;

verus! {

/// The faces of `records`, in their order.
pub open spec fn faces_of(records: Seq<InRecord>) -> Seq<Face> {
    records.map_values(|record: InRecord| record.face)
}

/// The faces of all the pending requests at the nodes `ids`, node by node.
pub open spec fn requesters(nodes: Seq<NodeView>, ids: Seq<usize>) -> Seq<Face>
    decreases ids.len(),
{
    if ids.len() == 0 {
        Seq::empty()
    } else {
        requesters(nodes, ids.drop_last()) + faces_of(nodes[ids.last() as int].in_records)
    }
}

/// A copy of the packet `data` for each of `faces`.
pub open spec fn copies_for(data: Seq<u8>, faces: Seq<Face>) -> Seq<(Seq<u8>, Face)> {
    faces.map_values(|face: Face| (data, face))
}

/// What the Data `data` does to the table, and what becomes of it. The
/// tables stay as they are. A packet whose name does not decode is dropped,
/// and so is one for which the table has no node at any prefix of its name.
/// Else the queue gets a copy for every pending request at those nodes, the
/// shortest prefix first.
pub open spec fn data_processed(
    old: TableView,
    new: TableView,
    data: Seq<u8>,
    p_tlo: TLO,
    r: Outcome,
) -> bool {
    match spec_name(data, p_tlo) {
        Err(reason) => r == reason && new == old,
        Ok((a, b)) => {
            let ids = matching_nodes(old.pit, name_path(split_name(data.subrange(a, b)).0));
            &&& settings_kept(old, new)
            &&& new.dnl == old.dnl
            &&& new.pit == old.pit
            &&& if ids.len() == 0 {
                r == Outcome::Unsolicited && new.sent == old.sent
            } else {
                r == Outcome::Delivered && new.sent == old.sent + copies_for(
                    data,
                    requesters(old.pit, ids),
                )
            }
        },
    }
}

/// Queues a copy of `data` for the face of each of `records`.
fn queue_copies(queue: &mut Vec<(Vec<u8>, Face)>, data: &Vec<u8>, records: &Vec<InRecord>)
    ensures
        queue_view(final(queue)@) == queue_view(old(queue)@) + copies_for(data@, faces_of(records@)),
{
    let mut j: usize = 0;
    proof {
        assert(queue_view(queue@) + copies_for(data@, faces_of(records@.take(0))) =~= queue_view(
            queue@,
        ));
    }
    while j < records.len()
        invariant
            j <= records.len(),
            queue_view(queue@) == queue_view(old(queue)@) + copies_for(
                data@,
                faces_of(records@.take(j as int)),
            ),
        decreases records.len() - j,
    {
        let ghost queued = queue_view(queue@);
        let copy = data.clone();
        queue.push((copy, records[j].face));
        proof {
            assert(queue_view(queue@) =~= queued.push((data@, records@[j as int].face)));
            assert(copies_for(data@, faces_of(records@.take(j + 1))) =~= copies_for(
                data@,
                faces_of(records@.take(j as int)),
            ).push((data@, records@[j as int].face)));
        }
        j = j + 1;
    }
    proof {
        assert(records@.take(j as int) =~= records@);
    }
}

/// Takes the Data `packet`, whose outer type and length are `p_tlo`, through
/// the pipeline.
pub fn process_data(table: &mut Table, packet: &UdpPacket, p_tlo: TLO) -> (r: Outcome)
    requires
        old(table).wf(),
    ensures
        final(table).wf(),
        data_processed(old(table)@, final(table)@, packet.data@, p_tlo, r),
{
    let data = packet.data.as_slice();
    let (a, b) = match read_name(data, &p_tlo) {
        Ok(x) => x,
        Err(e) => {
            return e;
        },
    };
    let name = slice_to_vec(slice_subrange(data, a, b));
    let entries = table.pit.get_all_can_be_pfx(&name);
    if entries.len() == 0 {
        return Outcome::Unsolicited;
    }
    let mut i: usize = 0;
    proof {
        assert(table@.sent + copies_for(packet.data@, requesters(table@.pit, entries@.take(0)))
            =~= table@.sent);
    }
    while i < entries.len()
        invariant
            i <= entries.len(),
            table.wf(),
            table.dnl == old(table).dnl,
            table.pit == old(table).pit,
            table.forward_aggregated == old(table).forward_aggregated,
            forall|k: int| 0 <= k < entries@.len() ==> entries@[k] < table@.pit.len(),
            table@.sent == old(table)@.sent + copies_for(
                packet.data@,
                requesters(table@.pit, entries@.take(i as int)),
            ),
        decreases entries.len() - i,
    {
        let entry = table.pit.node(entries[i]);
        queue_copies(&mut table.send_queue, &packet.data, &entry.in_records);
        proof {
            let done = entries@.take(i as int);
            let more = entries@.take(i + 1);
            assert(more.drop_last() =~= done);
            let first = requesters(table@.pit, done);
            let second = faces_of(table@.pit[entries@[i as int] as int].in_records);
            assert(copies_for(packet.data@, first + second) =~= copies_for(packet.data@, first)
                + copies_for(packet.data@, second));
            assert(table@.sent =~= old(table)@.sent + copies_for(
                packet.data@,
                requesters(table@.pit, more),
            ));
        }
        i = i + 1;
    }
    proof {
        assert(entries@.take(i as int) =~= entries@);
    }
    Outcome::Delivered
}

} // verus!
