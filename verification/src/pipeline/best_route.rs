//! The best-route strategy: the cheapest route, and the first of those that
//! cost the same.

use vstd::prelude::*;
use crate::face::UdpPacket;
use crate::pipeline::interest::{on_outgoing_interest, packets_for};
use crate::pipeline::strategy::Strategy;
use crate::pipeline::{Interest, Outcome};
use crate::table::pit::NextHop;
use crate::table::Table;

verus! {

/// The index of the cheapest route of `hops`; of several equally cheap ones,
/// the first. It is 0 for an empty list.
pub open spec fn best_index(hops: Seq<NextHop>) -> int
    decreases hops.len(),
{
    if hops.len() <= 1 {
        0
    } else {
        let b = best_index(hops.drop_last());
        if hops.last().cost < hops[b].cost {
            hops.len() - 1
        } else {
            b
        }
    }
}

/// The choice of the best-route strategy: the cheapest route alone, or
/// nothing where there is no route.
pub open spec fn best_route(hops: Seq<NextHop>) -> Seq<NextHop> {
    if hops.len() == 0 {
        Seq::empty()
    } else {
        seq![hops[best_index(hops)]]
    }
}

/// The chosen route costs no more than any other route, and more than none
/// that comes before it.
pub proof fn lemma_best_index(hops: Seq<NextHop>)
    requires
        hops.len() > 0,
    ensures
        0 <= best_index(hops) < hops.len(),
        forall|j: int| 0 <= j < hops.len() ==> hops[best_index(hops)].cost <= (#[trigger] hops[j]).cost,
        forall|j: int| 0 <= j < best_index(hops) ==> hops[best_index(hops)].cost < (#[trigger] hops[j]).cost,
    decreases hops.len(),
{
    if hops.len() > 1 {
        let front = hops.drop_last();
        lemma_best_index(front);
        assert forall|j: int| 0 <= j < hops.len() implies hops[best_index(hops)].cost <= (
        #[trigger] hops[j]).cost by {
            if j < front.len() {
                assert(front[j] == hops[j]);
            }
        }
        assert forall|j: int| 0 <= j < best_index(hops) implies hops[best_index(hops)].cost < (
        #[trigger] hops[j]).cost by {
            assert(front[j] == hops[j]);
        }
    }
}

/// The strategy that sends every Interest along the cheapest route.
pub struct BestRouteStrategy {}

impl Strategy for BestRouteStrategy {
    open spec fn pick(nexthops: Seq<NextHop>) -> Seq<NextHop> {
        best_route(nexthops)
    }

    fn after_receive_interest(table: &mut Table, packet: &UdpPacket, interest: Interest) -> (r:
        Outcome) {
        let mut res_hops: Vec<NextHop> = Vec::new();
        let chosen: Option<NextHop> = match &interest.nexthops {
            Some(nexthops) => cheapest(nexthops),
            None => None,
        };
        match chosen {
            Some(hop) => {
                res_hops.push(hop);
            },
            None => {
                proof {
                    let id = interest.pit_node.unwrap() as int;
                    assert(table@.pit =~= table@.pit.update(id, table@.pit[id]));
                    assert(table@.sent + packets_for(packet.data@, Seq::empty()) =~= table@.sent);
                }
                return Outcome::NoRoute;
            },
        }
        assert(res_hops@ =~= best_route(interest.nexthops.unwrap()@));
        on_outgoing_interest(table, packet, interest, res_hops);
        Outcome::Forwarded
    }
}

/// Looks for the cheapest route of `nexthops`.
fn cheapest(nexthops: &Vec<NextHop>) -> (r: Option<NextHop>)
    ensures
        match r {
            Some(hop) => nexthops@.len() > 0 && hop == nexthops@[best_index(nexthops@)],
            None => nexthops@.len() == 0,
        },
{
    if nexthops.len() == 0 {
        return None;
    }
    let mut best: usize = 0;
    let mut i: usize = 1;
    assert(nexthops@.take(1).drop_last() =~= nexthops@.take(0));
    while i < nexthops.len()
        invariant
            1 <= i <= nexthops.len(),
            best == best_index(nexthops@.take(i as int)),
            best < i,
        decreases nexthops.len() - i,
    {
        proof {
            assert(nexthops@.take(i + 1).drop_last() =~= nexthops@.take(i as int));
        }
        if nexthops[i].cost < nexthops[best].cost {
            best = i;
        }
        i = i + 1;
    }
    assert(nexthops@.take(i as int) =~= nexthops@);
    Some(nexthops[best])
}

} // verus!
