//! The dispatcher: which worker gets a packet. It keeps no state. All it
//! looks at is the packet's name, so that the packets of one name meet in
//! one shard.

use vstd::prelude::*;
use vstd::slice::slice_subrange;
use crate::pipeline::{read_name, spec_name, Outcome};
use crate::tlv::vec_decode::{read_tlo, spec_read_tlo};

verus! {

/// The length of a name from which on a packet goes to every shard.
pub const BROADCAST_NAME_LENGTH: usize = 30;

/// Where a packet goes.
#[derive(Debug, Clone, Copy, PartialEq, Eq, Structural)]
pub enum Route {
    /// To the worker of this shard, and to no other.
    Shard(usize),
    /// To the workers of all shards.
    Broadcast,
    /// To the management queue.
    Management,
    /// Nowhere, because of this.
    Drop(Outcome),
}

/// The name prefix of local control traffic: the component `localhost` and
/// the component `nfd`, both generic.
pub open spec fn mgmt_prefix() -> Seq<u8> {
    seq![8u8, 9, 108, 111, 99, 97, 108, 104, 111, 115, 116, 8, 3, 110, 102, 100]
}

/// The sum of `bytes`.
pub open spec fn byte_sum(bytes: Seq<u8>) -> nat
    decreases bytes.len(),
{
    if bytes.len() == 0 {
        0
    } else {
        byte_sum(bytes.drop_last()) + bytes.last() as nat
    }
}

/// Where a packet with the name `name` goes among `shards` shards: local
/// control traffic to management; a name of more than 30 bytes to all
/// shards; any other to the shard that the sum of its bytes picks.
pub open spec fn name_route(name: Seq<u8>, shards: nat) -> Route {
    if mgmt_prefix().is_prefix_of(name) {
        Route::Management
    } else if name.len() > BROADCAST_NAME_LENGTH {
        Route::Broadcast
    } else {
        Route::Shard((byte_sum(name) % shards) as usize)
    }
}

/// Where the packet `data` goes among `shards` shards. An Interest or a Data
/// that starts with a name which ends within the packet goes where its name
/// says; anything else is dropped.
pub open spec fn spec_dispatch(data: Seq<u8>, shards: nat) -> Route {
    match spec_read_tlo(data) {
        Err(_) => Route::Drop(Outcome::Malformed),
        Ok(tlo) => if tlo.t != 5 && tlo.t != 6 {
            Route::Drop(Outcome::UnknownType)
        } else {
            match spec_name(data, tlo) {
                Err(reason) => Route::Drop(reason),
                Ok((a, b)) => name_route(data.subrange(a, b), shards),
            }
        },
    }
}

/// A packet that goes to one shard goes to a shard that there is.
pub proof fn lemma_shard_in_range(data: Seq<u8>, shards: nat)
    requires
        0 < shards <= usize::MAX,
    ensures
        spec_dispatch(data, shards) matches Route::Shard(i) ==> i < shards,
{
    match spec_read_tlo(data) {
        Ok(tlo) => {
            match spec_name(data, tlo) {
                Ok((a, b)) => {
                    let name = data.subrange(a, b);
                    assert(byte_sum(name) % shards < shards) by (nonlinear_arith)
                        requires
                            shards > 0,
                    ;
                },
                Err(_) => {},
            }
        },
        Err(_) => {},
    }
}

/// Two packets of one name go the same way, whatever else they hold, as
/// long as neither is dropped.
pub proof fn lemma_name_decides(first: Seq<u8>, second: Seq<u8>, shards: nat)
    requires
        spec_read_tlo(first) is Ok,
        spec_read_tlo(second) is Ok,
        spec_name(first, spec_read_tlo(first).unwrap()) is Ok,
        spec_name(second, spec_read_tlo(second).unwrap()) is Ok,
        ({
            let (a, b) = spec_name(first, spec_read_tlo(first).unwrap()).unwrap();
            let (c, d) = spec_name(second, spec_read_tlo(second).unwrap()).unwrap();
            first.subrange(a, b) == second.subrange(c, d)
        }),
        !(spec_dispatch(first, shards) is Drop),
        !(spec_dispatch(second, shards) is Drop),
    ensures
        spec_dispatch(first, shards) == spec_dispatch(second, shards),
{
}

/// Whether `name` starts with the prefix of local control traffic.
fn is_mgmt(name: &[u8]) -> (r: bool)
    ensures
        r == mgmt_prefix().is_prefix_of(name@),
{
    let prefix: [u8; 16] = [8, 9, 108, 111, 99, 97, 108, 104, 111, 115, 116, 8, 3, 110, 102, 100];
    assert(prefix@ =~= mgmt_prefix());
    if name.len() < 16 {
        return false;
    }
    let mut i: usize = 0;
    while i < 16
        invariant
            i <= 16 <= name.len(),
            prefix@ == mgmt_prefix(),
            forall|k: int| 0 <= k < i ==> name@[k] == prefix@[k],
        decreases 16 - i,
    {
        if name[i] != prefix[i] {
            assert(name@.subrange(0, 16)[i as int] != mgmt_prefix()[i as int]);
            return false;
        }
        i = i + 1;
    }
    assert(mgmt_prefix() =~= name@.subrange(0, 16));
    true
}

/// Says where the packet `data` goes among `shards` shards.
pub fn dispatch_udp(data: &[u8], shards: usize) -> (r: Route)
    requires
        shards > 0,
    ensures
        r == spec_dispatch(data@, shards as nat),
        r matches Route::Shard(i) ==> i < shards,
{
    let tlo = match read_tlo(data) {
        Ok(tlo) => tlo,
        Err(_) => {
            return Route::Drop(Outcome::Malformed);
        },
    };
    if tlo.t != 5 && tlo.t != 6 {
        return Route::Drop(Outcome::UnknownType);
    }
    let (a, b) = match read_name(data, &tlo) {
        Ok(x) => x,
        Err(reason) => {
            return Route::Drop(reason);
        },
    };
    let name = slice_subrange(data, a, b);
    if is_mgmt(name) {
        return Route::Management;
    }
    if name.len() > BROADCAST_NAME_LENGTH {
        return Route::Broadcast;
    }
    let mut hash: u64 = 0;
    let mut i: usize = 0;
    while i < name.len()
        invariant
            i <= name.len() <= 30,
            hash == byte_sum(name@.take(i as int)),
            hash <= 255 * i,
        decreases name.len() - i,
    {
        proof {
            assert(name@.take(i + 1).drop_last() =~= name@.take(i as int));
        }
        hash = hash + name[i] as u64;
        i = i + 1;
    }
    proof {
        assert(name@.take(i as int) =~= name@);
        assert(byte_sum(name@) % (shards as nat) < shards) by (nonlinear_arith)
            requires
                shards > 0,
        ;
    }
    Route::Shard((hash % shards as u64) as usize)
}

} // verus!
