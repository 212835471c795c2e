//! The forwarding strategy: which of the routes that a name inherits an
//! Interest is sent along.

use vstd::prelude::*;
use crate::face::UdpPacket;
use crate::pipeline::interest::outgoing;
use crate::pipeline::{Interest, Outcome};
use crate::table::pit::NextHop;
use crate::table::Table;

verus! {

/// A policy that picks routes. The pipeline hands it every Interest that
/// found its node in the table, with the routes that the name inherits.
pub trait Strategy {
    /// The routes that the policy picks among `nexthops`.
    spec fn pick(nexthops: Seq<NextHop>) -> Seq<NextHop>;

    /// Sends `interest`, which came as `packet`, along the chosen routes:
    /// each gets an out-record at the Interest's node and a copy of the
    /// packet in the queue. With no route chosen nothing changes and the
    /// Interest is dropped.
    fn after_receive_interest(table: &mut Table, packet: &UdpPacket, interest: Interest) -> (r:
        Outcome)
        requires
            old(table).wf(),
            interest.nexthops is Some,
            interest.nonce is Some,
            interest.pit_node is Some,
            interest.pit_node.unwrap() < old(table)@.pit.len(),
        ensures
            final(table).wf(),
                outgoing(
                old(table)@,
                final(table)@,
                packet.data@,
                interest.pit_node.unwrap() as int,
                interest.nonce.unwrap(),
                Self::pick(interest.nexthops.unwrap()@),
            ),
            r == if Self::pick(interest.nexthops.unwrap()@).len() == 0 {
                Outcome::NoRoute
            } else {
                Outcome::Forwarded
            },
    ;
}

} // verus!
