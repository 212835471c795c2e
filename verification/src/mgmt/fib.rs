//! The commands that change the routes.

use vstd::prelude::*;
use vstd::slice::{slice_subrange, slice_to_vec};
use crate::face::Face;
use crate::mgmt::{read_addr, spec_read_addr};
use crate::table::pit::{with_hop, NextHop};
use crate::table::trie::{
    grown, in_records_before, lemma_same_shape, lemma_walk_in_range, name_path, nexthops_before,
    node_kept, out_records_before, same_shape, split_name, walk,
};
use crate::table::{settings_kept, Table, TableView};
use crate::tlv::vec_decode::{lemma_tlo_offset, read_nni, read_tlo, spec_read_nni, spec_read_tlo};
use crate::tlv::DecodeError;

verus! {

/// The name, the face and the cost of a command to install a route: a name
/// field that ends within `frame`, an address field, and a cost field whose
/// value is an integer of 1, 2, 4 or 8 bytes.
pub open spec fn spec_hop_command(frame: Seq<u8>) -> Result<(Seq<u8>, Face, u64), DecodeError> {
    match spec_read_tlo(frame) {
        Err(e) => Err(e),
        Ok(name_tlo) => if name_tlo.o + name_tlo.l > frame.len() {
            Err(DecodeError::InsufficientLength)
        } else {
            let name = frame.subrange(name_tlo.o as int, name_tlo.o + name_tlo.l);
            let behind_name = frame.skip(name_tlo.o + name_tlo.l);
            match spec_read_addr(behind_name) {
                Err(e) => Err(e),
                Ok(face) => {
                    let addr_tlo = spec_read_tlo(behind_name).unwrap();
                    let behind_addr = behind_name.skip(addr_tlo.o + addr_tlo.l);
                    match spec_read_tlo(behind_addr) {
                        Err(e) => Err(e),
                        Ok(cost_tlo) => match spec_read_nni(
                            behind_addr.skip(cost_tlo.o as int),
                            cost_tlo.l,
                        ) {
                            Err(e) => Err(e),
                            Ok(cost) => Ok((name, face, cost)),
                        },
                    }
                },
            }
        },
    }
}

/// What installing the route `hop` at `name` does to the table. The walk of
/// the name adds the nodes that were missing; a name with a component that
/// does not decode ends there, with that error. Else the route is installed
/// at the node of the name. Nothing else changes.
pub open spec fn hop_installed(
    old: TableView,
    new: TableView,
    name: Seq<u8>,
    hop: NextHop,
    r: Result<(), DecodeError>,
) -> bool {
    let (components, err) = split_name(name);
    let path = name_path(components);
    &&& settings_kept(old, new)
    &&& new.dnl == old.dnl
    &&& new.sent == old.sent
    &&& grown(old.pit, new.pit, components)
    &&& match err {
        Some(e) => {
            &&& r == Err::<(), DecodeError>(e)
            &&& forall|i: int| 0 <= i < new.pit.len() ==> node_kept(old.pit, new.pit, i)
        },
        None => {
            let id = walk(new.pit, path).unwrap() as int;
            &&& r is Ok
            &&& 0 <= id < new.pit.len()
            &&& forall|i: int| 0 <= i < new.pit.len() && i != id ==> node_kept(old.pit, new.pit, i)
            &&& id < old.pit.len() ==> new.pit[id].name == old.pit[id].name && new.pit[id].strategy
                == old.pit[id].strategy
            &&& id >= old.pit.len() ==> new.pit[id].strategy == 0
            &&& new.pit[id].nexthops == with_hop(nexthops_before(old.pit, id), hop)
            &&& new.pit[id].in_records == in_records_before(old.pit, id)
            &&& new.pit[id].out_records == out_records_before(old.pit, id)
        },
    }
}

/// What the command `frame` does to the table: nothing where it does not
/// decode, else what installing its route does.
pub open spec fn hop_command_applied(
    old: TableView,
    new: TableView,
    frame: Seq<u8>,
    r: Result<(), DecodeError>,
) -> bool {
    match spec_hop_command(frame) {
        Err(e) => r == Err::<(), DecodeError>(e) && new == old,
        Ok((name, face, cost)) => hop_installed(old, new, name, NextHop { addr: face, cost }, r),
    }
}

/// Installs the route `hop` at the node of `name`, which is made if it is
/// not there.
pub fn insert_hop(table: &mut Table, name: &Vec<u8>, hop: NextHop) -> (r: Result<(), DecodeError>)
    requires
        old(table).wf(),
    ensures
        final(table).wf(),
        hop_installed(old(table)@, final(table)@, name@, hop, r),
{
    let ghost components = split_name(name@).0;
    let ghost path = name_path(components);
    match table.pit.insert_or_get(name) {
        Ok((node, _, _)) => {
            let ghost walked = table@.pit;
            proof {
                lemma_walk_in_range(walked, path);
            }
            table.pit.insert_hop(node, hop);
            proof {
                let last = table@.pit;
                assert(same_shape(walked, last));
                lemma_same_shape(old(table)@.pit, walked, last, components);
                assert(node_kept(old(table)@.pit, walked, node as int));
                assert forall|i: int| 0 <= i < last.len() && i != node implies node_kept(
                    old(table)@.pit,
                    last,
                    i,
                ) by {
                    assert(node_kept(old(table)@.pit, walked, i));
                }
            }
            Ok(())
        },
        Err(e) => Err(e),
    }
}

/// Reads a command to install a route and carries it out.
pub fn read_insert_hop(table: &mut Table, frame: &[u8]) -> (r: Result<(), DecodeError>)
    requires
        old(table).wf(),
    ensures
        final(table).wf(),
        hop_command_applied(old(table)@, final(table)@, frame@, r),
{
    let name_tlo = match read_tlo(frame) {
        Ok(tlo) => tlo,
        Err(e) => {
            return Err(e);
        },
    };
    proof {
        lemma_tlo_offset(frame@);
    }
    if name_tlo.l > (frame.len() - name_tlo.o) as u64 {
        return Err(DecodeError::InsufficientLength);
    }
    let name_end: usize = name_tlo.o + name_tlo.l as usize;
    let name = slice_to_vec(slice_subrange(frame, name_tlo.o, name_end));
    let behind_name = slice_subrange(frame, name_end, frame.len());
    assert(behind_name@ =~= frame@.skip(name_end as int));
    let addr = match read_addr(behind_name) {
        Ok(face) => face,
        Err(e) => {
            return Err(e);
        },
    };
    let addr_tlo = match read_tlo(behind_name) {
        Ok(tlo) => tlo,
        Err(e) => {
            return Err(e);
        },
    };
    let behind_addr = slice_subrange(behind_name, addr_tlo.o + addr_tlo.l as usize, behind_name.len());
    assert(behind_addr@ =~= behind_name@.skip(addr_tlo.o + addr_tlo.l));
    let cost_tlo = match read_tlo(behind_addr) {
        Ok(tlo) => tlo,
        Err(e) => {
            return Err(e);
        },
    };
    proof {
        lemma_tlo_offset(behind_addr@);
    }
    let value = slice_subrange(behind_addr, cost_tlo.o, behind_addr.len());
    assert(value@ =~= behind_addr@.skip(cost_tlo.o as int));
    let cost = match read_nni(value, cost_tlo.l) {
        Ok(cost) => cost,
        Err(e) => {
            return Err(e);
        },
    };
    insert_hop(table, &name, NextHop { addr, cost })
}

} // verus!
