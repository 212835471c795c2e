//! The entry of the pipeline: one packet in, and the table knows of it.

use vstd::prelude::*;
use crate::face::{Face, UdpPacket};
use crate::mgmt::{frame_processed, process_frame};
use crate::pipeline::data::{data_processed, process_data};
use crate::pipeline::interest::{interest_processed, process_interest};
use crate::pipeline::Outcome;
use crate::table::{Table, TableView};
use crate::tlv::vec_decode::{read_tlo, spec_read_tlo};

verus! {

/// What the packet `data` from `face` does to the table, and what becomes of
/// it. What comes from port 0 is a management packet. Anything else is an
/// Interest or a Data by its outer type; a packet of another type, or one
/// whose outer type and length do not decode, is dropped.
pub open spec fn packet_processed(
    old: TableView,
    new: TableView,
    data: Seq<u8>,
    face: Face,
    r: Outcome,
) -> bool {
    if face.port == 0 {
        frame_processed(old, new, data, r)
    } else {
        match spec_read_tlo(data) {
            Err(_) => r == Outcome::Malformed && new == old,
            Ok(tlo) => if tlo.t == 5 {
                interest_processed(old, new, data, face, tlo, r)
            } else if tlo.t == 6 {
                data_processed(old, new, data, tlo, r)
            } else {
                r == Outcome::UnknownType && new == old
            },
        }
    }
}

/// Takes one packet through the pipeline.
pub fn process_packet(table: &mut Table, packet: &UdpPacket) -> (r: Outcome)
    requires
        old(table).wf(),
    ensures
        final(table).wf(),
        packet_processed(old(table)@, final(table)@, packet.data@, packet.addr, r),
{
    if packet.addr.port == 0 {
        return process_frame(table, packet);
    }
    let p_tlo = match read_tlo(packet.data.as_slice()) {
        Ok(tlo) => tlo,
        Err(_) => {
            return Outcome::Malformed;
        },
    };
    if p_tlo.t == 5 {
        process_interest(table, packet, p_tlo)
    } else if p_tlo.t == 6 {
        process_data(table, packet, p_tlo)
    } else {
        Outcome::UnknownType
    }
}

} // verus!
