//! The bridge to the routing and management process: the frames that come
//! from it and go to it, and the commands that it gives the workers.

use vstd::prelude::*;
use vstd::slice::{slice_subrange, slice_to_vec};
use crate::face::{
    lemma_face_text_len, lemma_face_text_round_trip, spec_parse_face, Face, UdpPacket,
};
use crate::pipeline::Outcome;
use crate::table::{Table, TableView};
use crate::tlv::tlv::{encode, lemma_tlv_value, tlv_bytes};
use crate::tlv::vec_decode::{lemma_tlo_offset, read_tlo, spec_read_tlo};
use crate::tlv::DecodeError;
use self::fib::{hop_command_applied, read_insert_hop};

pub mod fib;

verus! {

/// The type of a field that holds a face address in text form.
pub const ADDRESS: u64 = 4;

/// The type of a frame, and of a packet, that carries Data.
pub const DATA: u64 = 6;

/// The type of the field that wraps what a worker sends to the bridge.
pub const CONTENT: u64 = 21;

/// The type of a frame that carries a command for the workers.
pub const COMMAND_FRAME: u64 = 3;

/// The type of the command that installs a route.
pub const INSERT_HOP: u64 = 1;

/// What a frame from the bridge asks for.
#[derive(Debug)]
pub enum BridgeFrame {
    /// Send these bytes to this face.
    Relay(Face, Vec<u8>),
    /// Hand this packet, a command, to every worker.
    Command(UdpPacket),
    /// Nothing: the frame carries Data that does not decode.
    Bad(DecodeError),
    /// Nothing: the frame is of no kind known here, or does not decode.
    Other,
}

/// The face that the field at the start of `frame` names: an address field
/// that ends within `frame` and holds a face in text form.
pub open spec fn spec_read_addr(frame: Seq<u8>) -> Result<Face, DecodeError> {
    match spec_read_tlo(frame) {
        Err(e) => Err(e),
        Ok(tlo) => if tlo.t != ADDRESS {
            Err(DecodeError::ExpectedAddress)
        } else if tlo.o + tlo.l > frame.len() {
            Err(DecodeError::InsufficientLength)
        } else {
            match spec_parse_face(frame.subrange(tlo.o as int, tlo.o + tlo.l)) {
                Some(face) => Ok(face),
                None => Err(DecodeError::InvalidAddress),
            }
        },
    }
}

/// Reads the face address at the start of `frame`.
pub fn read_addr(frame: &[u8]) -> (r: Result<Face, DecodeError>)
    ensures
        r == spec_read_addr(frame@),
{
    let addr_tlo = match read_tlo(frame) {
        Ok(tlo) => tlo,
        Err(e) => {
            return Err(e);
        },
    };
    if addr_tlo.t != ADDRESS {
        return Err(DecodeError::ExpectedAddress);
    }
    proof {
        lemma_tlo_offset(frame@);
    }
    if addr_tlo.l > (frame.len() - addr_tlo.o) as u64 {
        return Err(DecodeError::InsufficientLength);
    }
    let addr = slice_subrange(frame, addr_tlo.o, addr_tlo.o + addr_tlo.l as usize);
    match Face::parse(addr) {
        Some(face) => Ok(face),
        None => Err(DecodeError::InvalidAddress),
    }
}

/// The Data inside `data`: `data` itself where it starts with a Data field,
/// else what is found in the same way inside the value of the field that it
/// starts with.
pub open spec fn spec_peel(data: Seq<u8>) -> Result<Seq<u8>, DecodeError>
    decreases data.len(),
    via spec_peel_decreases
{
    match spec_read_tlo(data) {
        Err(e) => Err(e),
        Ok(tlo) => if tlo.t == DATA {
            Ok(data)
        } else {
            spec_peel(data.skip(tlo.o as int))
        },
    }
}

#[via_fn]
proof fn spec_peel_decreases(data: Seq<u8>) {
    if spec_read_tlo(data) is Ok {
        lemma_tlo_offset(data);
    }
}

/// The face and the Data of a frame that relays Data: an address field, and
/// behind it the Data, wrapped in any number of other fields.
pub open spec fn spec_read_data_frame(frame: Seq<u8>) -> Result<(Face, Seq<u8>), DecodeError> {
    match spec_read_addr(frame) {
        Err(e) => Err(e),
        Ok(face) => {
            let addr_tlo = spec_read_tlo(frame).unwrap();
            match spec_peel(frame.skip(addr_tlo.o + addr_tlo.l)) {
                Err(e) => Err(e),
                Ok(data) => Ok((face, data)),
            }
        },
    }
}

/// Reads the value of a frame that relays Data.
pub fn read_data_frame(frame: &[u8]) -> (r: Result<(Face, Vec<u8>), DecodeError>)
    ensures
        match r {
            Ok((face, data)) => spec_read_data_frame(frame@) == Ok::<(Face, Seq<u8>), DecodeError>(
                (face, data@),
            ),
            Err(e) => spec_read_data_frame(frame@) == Err::<(Face, Seq<u8>), DecodeError>(e),
        },
{
    let face = match read_addr(frame) {
        Ok(face) => face,
        Err(e) => {
            return Err(e);
        },
    };
    let addr_tlo = match read_tlo(frame) {
        Ok(tlo) => tlo,
        Err(e) => {
            return Err(e);
        },
    };
    assert(addr_tlo.o + addr_tlo.l <= frame.len());
    let mut at: usize = addr_tlo.o + addr_tlo.l as usize;
    loop
        invariant
            at <= frame.len(),
            spec_read_addr(frame@) == Ok::<Face, DecodeError>(face),
            spec_read_tlo(frame@) == Ok::<crate::tlv::TLO, DecodeError>(addr_tlo),
            spec_peel(frame@.skip(addr_tlo.o + addr_tlo.l)) == spec_peel(frame@.skip(at as int)),
        decreases frame.len() - at,
    {
        let data = slice_subrange(frame, at, frame.len());
        assert(data@ =~= frame@.skip(at as int));
        let data_tlo = match read_tlo(data) {
            Ok(tlo) => tlo,
            Err(e) => {
                return Err(e);
            },
        };
        if data_tlo.t == DATA {
            return Ok((face, slice_to_vec(data)));
        }
        proof {
            lemma_tlo_offset(data@);
            assert(data@.skip(data_tlo.o as int) =~= frame@.skip(at + data_tlo.o));
        }
        at = at + data_tlo.o;
    }
}

/// Reads a frame from the bridge. A frame of Data gives the Data and the
/// face to send it to. A frame with a command gives the packet to hand to
/// the workers: the command, as coming from port 0 of address 0.
pub fn read_frame(frame: &[u8]) -> (r: BridgeFrame)
    ensures
        match spec_read_tlo(frame@) {
            Err(_) => r is Other,
            Ok(tlo) => if tlo.t == DATA {
                match spec_read_data_frame(frame@.skip(tlo.o as int)) {
                    Ok((face, data)) => r matches BridgeFrame::Relay(f, d) && f == face && d@ == data,
                    Err(e) => r matches BridgeFrame::Bad(b) && b == e,
                }
            } else if tlo.t == COMMAND_FRAME {
                r matches BridgeFrame::Command(packet) && packet.data@ == frame@.skip(tlo.o as int)
                    && packet.addr == (Face { ip: 0, port: 0 })
            } else {
                r is Other
            },
        },
{
    let frame_tlo = match read_tlo(frame) {
        Ok(tlo) => tlo,
        Err(_) => {
            return BridgeFrame::Other;
        },
    };
    proof {
        lemma_tlo_offset(frame@);
    }
    let c_frame = slice_subrange(frame, frame_tlo.o, frame.len());
    assert(c_frame@ =~= frame@.skip(frame_tlo.o as int));
    if frame_tlo.t == DATA {
        match read_data_frame(c_frame) {
            Ok((face, data)) => BridgeFrame::Relay(face, data),
            Err(e) => BridgeFrame::Bad(e),
        }
    } else if frame_tlo.t == COMMAND_FRAME {
        BridgeFrame::Command(UdpPacket { data: slice_to_vec(c_frame), addr: Face { ip: 0, port: 0 } })
    } else {
        BridgeFrame::Other
    }
}

/// The frame in which a packet goes to the bridge: a Data frame that holds
/// the face in text form as an address field, and the packet as content.
pub open spec fn spec_relay_frame(face: Face, data: Seq<u8>) -> Seq<u8> {
    let addr = tlv_bytes(ADDRESS, face.text().len() as u64, face.text());
    let content = tlv_bytes(CONTENT, data.len() as u64, data);
    tlv_bytes(DATA, (addr.len() + content.len()) as u64, addr + content)
}

/// Frames `packet` for the bridge.
pub fn relay_frame(packet: &UdpPacket) -> (r: Vec<u8>)
    ensures
        r@ == spec_relay_frame(packet.addr, packet.data@),
{
    let text = packet.addr.to_text();
    let mut body = encode(ADDRESS, text.as_slice());
    let mut content = encode(CONTENT, packet.data.as_slice());
    body.append(&mut content);
    encode(DATA, body.as_slice())
}

/// A Data packet that went to the bridge in a frame comes back from such a
/// frame as it went, with its face.
pub proof fn lemma_relay_round_trip(face: Face, data: Seq<u8>)
    requires
        spec_read_tlo(data) is Ok,
        spec_read_tlo(data).unwrap().t == DATA,
        data.len() + 64 <= u64::MAX,
    ensures
        ({
            let frame = spec_relay_frame(face, data);
            &&& spec_read_tlo(frame) is Ok
            &&& spec_read_tlo(frame).unwrap().t == DATA
            &&& spec_read_data_frame(frame.skip(spec_read_tlo(frame).unwrap().o as int)) == Ok::<
                (Face, Seq<u8>),
                DecodeError,
            >((face, data))
        }),
{
    let text = face.text();
    let addr = tlv_bytes(ADDRESS, text.len() as u64, text);
    let content = tlv_bytes(CONTENT, data.len() as u64, data);
    let body = addr + content;
    let frame = spec_relay_frame(face, data);
    lemma_face_text_len(face);
    lemma_tlv_value(ADDRESS, text, content);
    lemma_tlv_value(CONTENT, data, Seq::empty());
    assert(content + Seq::<u8>::empty() =~= content);
    assert(data + Seq::<u8>::empty() =~= data);
    assert(body.len() == addr.len() + content.len());
    lemma_tlv_value(DATA, body, Seq::empty());
    assert(frame + Seq::<u8>::empty() =~= frame);
    assert(body + Seq::<u8>::empty() =~= body);
    lemma_relay_body(face, data);
}

/// The value of a relay frame is read back as the face and the Data.
proof fn lemma_relay_body(face: Face, data: Seq<u8>)
    requires
        spec_read_tlo(data) is Ok,
        spec_read_tlo(data).unwrap().t == DATA,
        data.len() + 64 <= u64::MAX,
    ensures
        ({
            let text = face.text();
            let addr = tlv_bytes(ADDRESS, text.len() as u64, text);
            let content = tlv_bytes(CONTENT, data.len() as u64, data);
            spec_read_data_frame(addr + content) == Ok::<(Face, Seq<u8>), DecodeError>((face, data))
        }),
{
    let text = face.text();
    let addr = tlv_bytes(ADDRESS, text.len() as u64, text);
    let content = tlv_bytes(CONTENT, data.len() as u64, data);
    let body = addr + content;
    lemma_face_text_len(face);
    lemma_face_text_round_trip(face);
    lemma_tlv_value(ADDRESS, text, content);
    let tlo = spec_read_tlo(body).unwrap();
    assert(body.subrange(tlo.o as int, tlo.o + tlo.l) =~= text) by {
        assert(body.skip(tlo.o as int) == text + content);
    }
    assert(spec_read_addr(body) == Ok::<Face, DecodeError>(face));
    assert(body.skip(tlo.o + tlo.l) =~= content) by {
        assert(body.skip(tlo.o as int) == text + content);
    }
    lemma_tlv_value(CONTENT, data, Seq::empty());
    assert(content + Seq::<u8>::empty() =~= content);
    assert(data + Seq::<u8>::empty() =~= data);
    assert(spec_peel(content) == spec_peel(data));
}

/// What a management packet does to the table, and what becomes of it. A
/// command to install a route is carried out. A packet that does not decode
/// is dropped; a command of another type is passed over.
pub open spec fn frame_processed(old: TableView, new: TableView, data: Seq<u8>, r: Outcome) -> bool {
    match spec_read_tlo(data) {
        Err(_) => r == Outcome::Malformed && new == old,
        Ok(tlo) => if tlo.t == INSERT_HOP {
            match r {
                Outcome::Applied => hop_command_applied(
                    old,
                    new,
                    data.skip(tlo.o as int),
                    Ok::<(), DecodeError>(()),
                ),
                Outcome::BadFrame(e) => hop_command_applied(
                    old,
                    new,
                    data.skip(tlo.o as int),
                    Err::<(), DecodeError>(e),
                ),
                _ => false,
            }
        } else {
            r == Outcome::Ignored && new == old
        },
    }
}

/// Carries out the command that `packet` holds.
pub fn process_frame(table: &mut Table, packet: &UdpPacket) -> (r: Outcome)
    requires
        old(table).wf(),
    ensures
        final(table).wf(),
        frame_processed(old(table)@, final(table)@, packet.data@, r),
{
    let data = packet.data.as_slice();
    let tlo = match read_tlo(data) {
        Ok(tlo) => tlo,
        Err(_) => {
            return Outcome::Malformed;
        },
    };
    proof {
        lemma_tlo_offset(data@);
    }
    let frame = slice_subrange(data, tlo.o, data.len());
    assert(frame@ =~= data@.skip(tlo.o as int));
    if tlo.t == INSERT_HOP {
        let done = read_insert_hop(table, frame);
        match done {
            Ok(_) => Outcome::Applied,
            Err(e) => Outcome::BadFrame(e),
        }
    } else {
        Outcome::Ignored
    }
}

} // verus!
