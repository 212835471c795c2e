//! What a pipeline worker does with one packet.

use vstd::prelude::*;
use vstd::slice::slice_subrange;
use crate::table::pit::NextHop;
use crate::tlv::vec_decode::{read_tlo, spec_read_tlo};
use crate::tlv::{DecodeError, TLO};

pub mod best_route;
pub mod data;
pub mod incoming;
pub mod interest;
pub mod strategy;

verus! {

/// What became of a packet.
#[derive(Debug, Clone, Copy, PartialEq, Eq, Structural)]
pub enum Outcome {
    /// The Interest was queued for the faces that the strategy chose.
    Forwarded,
    /// The Data was queued for every face with a pending request.
    Delivered,
    /// The management command was carried out.
    Applied,
    /// A management frame of a kind that nothing is done with.
    Ignored,
    /// Dropped: the packet does not decode, or a length in it runs past
    /// its end.
    Malformed,
    /// Dropped: the packet is neither an Interest nor a Data.
    UnknownType,
    /// Dropped: the packet does not start with a name.
    NotAName,
    /// Dropped: the Interest came with a hop limit of zero.
    HopLimit,
    /// Dropped: the Interest has no nonce.
    NoNonce,
    /// Dropped: the Interest was seen before, with the same nonce.
    Loop,
    /// Dropped: a component of the Interest's name does not decode.
    BadName,
    /// Dropped: the Interest's name inherits no route.
    NoRoute,
    /// Recorded and not forwarded: the Interest's node had pending requests
    /// already, and the table is set not to forward such an Interest again.
    Aggregated,
    /// Dropped: nobody asked for the Data.
    Unsolicited,
    /// The management command does not decode.
    BadFrame(DecodeError),
}

/// Where the name of a packet lies in `data`: the first field behind the
/// outer type and length, which must be a name and end within `data`.
pub open spec fn spec_name(data: Seq<u8>, p_tlo: TLO) -> Result<(int, int), Outcome> {
    if p_tlo.o > data.len() {
        Err(Outcome::Malformed)
    } else {
        match spec_read_tlo(data.skip(p_tlo.o as int)) {
            Err(_) => Err(Outcome::Malformed),
            Ok(n) => if n.t != 7 {
                Err(Outcome::NotAName)
            } else if p_tlo.o + n.o + n.l > data.len() {
                Err(Outcome::Malformed)
            } else {
                Ok((p_tlo.o + n.o, p_tlo.o + n.o + n.l))
            },
        }
    }
}

/// Finds the name of the packet `data`, whose outer type and length are
/// `p_tlo`.
pub fn read_name(data: &[u8], p_tlo: &TLO) -> (r: Result<(usize, usize), Outcome>)
    ensures
        match r {
            Ok((a, b)) => spec_name(data@, *p_tlo) == Ok::<(int, int), Outcome>((a as int, b as int))
                && a <= b <= data@.len(),
            Err(e) => spec_name(data@, *p_tlo) == Err::<(int, int), Outcome>(e),
        },
{
    if p_tlo.o > data.len() {
        return Err(Outcome::Malformed);
    }
    let inner = slice_subrange(data, p_tlo.o, data.len());
    assert(inner@ =~= data@.skip(p_tlo.o as int));
    let n = match read_tlo(inner) {
        Ok(n) => n,
        Err(_) => {
            return Err(Outcome::Malformed);
        },
    };
    if n.t != 7 {
        return Err(Outcome::NotAName);
    }
    if n.l > (inner.len() - n.o) as u64 {
        return Err(Outcome::Malformed);
    }
    Ok((p_tlo.o + n.o, p_tlo.o + n.o + n.l as usize))
}

/// A decoded Interest: its name, the optional fields found behind the name,
/// and what the table said of the name.
pub struct Interest {
    pub name: Vec<u8>,
    pub can_be_prefix: Option<bool>,
    pub must_be_fresh: Option<bool>,
    pub nonce: Option<u32>,
    pub lifetime: Option<u64>,
    pub hop_limit: Option<u8>,
    /// The descriptor of the whole packet.
    pub outer_tlo: TLO,
    /// The strategy that the name inherits, once the table was asked.
    pub strategy: Option<u64>,
    /// The routes that the name inherits, once the table was asked.
    pub nexthops: Option<Vec<NextHop>>,
    /// The table's node for the name, once the table was asked.
    pub pit_node: Option<usize>,
}

impl Interest {
    /// An Interest of which only the name is known yet.
    pub fn new(name: Vec<u8>, o_tlo: TLO) -> (r: Interest)
        ensures
            r.name == name,
            r.outer_tlo == o_tlo,
            r.can_be_prefix is None,
            r.must_be_fresh is None,
            r.nonce is None,
            r.lifetime is None,
            r.hop_limit is None,
            r.strategy is None,
            r.nexthops is None,
            r.pit_node is None,
    {
        Interest {
            name,
            can_be_prefix: None,
            must_be_fresh: None,
            nonce: None,
            lifetime: None,
            hop_limit: None,
            outer_tlo: o_tlo,
            strategy: None,
            nexthops: None,
            pit_node: None,
        }
    }
}

} // verus!
