//! Decoding from a byte stream, one frame after the other. The stream itself
//! is read elsewhere: here is what to read next, given what was read of a
//! frame so far, and the frame once it is whole.

use vstd::prelude::*;
use vstd::slice::{slice_subrange, slice_to_vec};
use super::vec_decode::{
    be_uint, lemma_tlo_offset, read_tlo, spec_read_tlo, spec_read_varnumber, varnumber_len,
};
use super::{DecodeError, TLO};

verus! {

/// A frame: its type, its length, its value, and the bytes that it was read
/// from, which are handed on as they came.
#[derive(Debug)]
pub struct TLV {
    pub t: u64,
    pub l: u64,
    pub v: Vec<u8>,
    pub data: Vec<u8>,
}

/// The length of the frame at the start of `buf`, its type and length
/// counted in; an error where `buf` ends before the type and the length do.
pub open spec fn spec_frame_len(buf: Seq<u8>) -> Result<int, DecodeError> {
    match spec_read_tlo(buf) {
        Err(e) => Err(e),
        Ok(tlo) => Ok(tlo.o + tlo.l),
    }
}

/// The descriptor of the frame at the start of `buf`, if `buf` holds the
/// frame to its end; else the error of a stream that ends too early.
pub open spec fn spec_read_frame(buf: Seq<u8>) -> Result<TLO, DecodeError> {
    match spec_read_tlo(buf) {
        Err(e) => Err(e),
        Ok(tlo) => if tlo.o + tlo.l > buf.len() {
            Err(DecodeError::UnexpectedEof)
        } else {
            Ok(tlo)
        },
    }
}

/// How many bytes the decoder asks for next, when `buf` is what it has read
/// of a frame: the first byte of a number; what is left of the number once
/// its first byte says how long it is; the value once the length is known;
/// nothing once the frame is whole.
pub open spec fn spec_missing(buf: Seq<u8>) -> int {
    if buf.len() == 0 {
        1
    } else if buf.len() < varnumber_len(buf[0]) {
        varnumber_len(buf[0]) - buf.len()
    } else {
        let first = varnumber_len(buf[0]) as int;
        if buf.len() == first {
            1
        } else if buf.len() < first + varnumber_len(buf[first]) {
            first + varnumber_len(buf[first]) - buf.len()
        } else {
            let whole = spec_frame_len(buf).unwrap();
            if buf.len() < whole {
                whole - buf.len()
            } else {
                0
            }
        }
    }
}

/// Says how many bytes to read next and to add to `buf`, which holds what
/// was read of a frame so far; 0 once `buf` holds the frame.
pub fn missing(buf: &[u8]) -> (n: u128)
    ensures
        n == spec_missing(buf@),
        n == 0 <==> (spec_frame_len(buf@) matches Ok(whole) && whole <= buf@.len()),
{
    if buf.len() == 0 {
        return 1;
    }
    let first: usize = width(buf[0]);
    if buf.len() < first {
        return (first - buf.len()) as u128;
    }
    if buf.len() == first {
        assert(buf@.subrange(first as int, buf@.len() as int).len() == 0);
        return 1;
    }
    let second: usize = width(buf[first]);
    proof {
        assert(buf@.subrange(first as int, buf@.len() as int)[0] == buf@[first as int]);
    }
    if buf.len() < first + second {
        return (first + second - buf.len()) as u128;
    }
    match read_tlo(buf) {
        Ok(tlo) => {
            let whole: u128 = tlo.o as u128 + tlo.l as u128;
            if (buf.len() as u128) < whole {
                whole - buf.len() as u128
            } else {
                0
            }
        },
        Err(_) => {
            assert(false);
            0
        },
    }
}

/// The count of bytes of a variable-length number that starts with `first`.
fn width(first: u8) -> (n: usize)
    ensures
        n == varnumber_len(first),
{
    if first <= 252 {
        1
    } else if first == 253 {
        3
    } else if first == 254 {
        5
    } else {
        9
    }
}

/// Reads the frame at the start of `buf`. A buffer that ends before the
/// frame does gives the error of a stream that ends there.
pub fn read_tlv(buf: &[u8]) -> (r: Result<TLV, DecodeError>)
    ensures
        match spec_read_frame(buf@) {
            Err(e) => r == Err::<TLV, DecodeError>(e),
            Ok(tlo) => {
                &&& r is Ok
                &&& r.unwrap().t == tlo.t
                &&& r.unwrap().l == tlo.l
                &&& r.unwrap().v@ == buf@.subrange(tlo.o as int, tlo.o + tlo.l)
                &&& r.unwrap().data@ == buf@.take(tlo.o + tlo.l)
            },
        },
{
    let tlo = match read_tlo(buf) {
        Ok(tlo) => tlo,
        Err(e) => {
            return Err(e);
        },
    };
    proof {
        lemma_tlo_offset(buf@);
    }
    if tlo.l > (buf.len() - tlo.o) as u64 {
        return Err(DecodeError::UnexpectedEof);
    }
    let end: usize = tlo.o + tlo.l as usize;
    let v = slice_to_vec(slice_subrange(buf, tlo.o, end));
    let data = slice_to_vec(slice_subrange(buf, 0, end));
    Ok(TLV { t: tlo.t, l: tlo.l, v, data })
}

/// A number that is read from a buffer is read the same from the first `k`
/// bytes of it, if they hold the number whole; if they do not, they give the
/// error of a stream that ends there.
proof fn lemma_varnumber_cut(buf: Seq<u8>, k: int)
    requires
        spec_read_varnumber(buf) is Ok,
        0 <= k <= buf.len(),
    ensures
        spec_read_varnumber(buf.take(k)) == if k < spec_read_varnumber(buf).unwrap().1 {
            Err::<(u64, usize), DecodeError>(DecodeError::UnexpectedEof)
        } else {
            spec_read_varnumber(buf)
        },
{
    reveal_with_fuel(be_uint, 9);
    let cut = buf.take(k);
    if k >= 1 {
        assert(cut[0] == buf[0]);
    }
}

/// A buffer cut short is never taken for a frame: wherever a whole frame is
/// cut, what is left gives the error of a stream that ends there.
pub proof fn lemma_truncated_frame(buf: Seq<u8>, k: int)
    requires
        spec_frame_len(buf) is Ok,
        0 <= k < spec_frame_len(buf).unwrap(),
        k <= buf.len(),
    ensures
        spec_read_frame(buf.take(k)) == Err::<TLO, DecodeError>(DecodeError::UnexpectedEof),
{
    let cut = buf.take(k);
    lemma_varnumber_cut(buf, k);
    let first = spec_read_varnumber(buf).unwrap().1 as int;
    if k >= first {
        let rest = buf.subrange(first, buf.len() as int);
        assert(cut.subrange(first, cut.len() as int) =~= rest.take(k - first));
        lemma_varnumber_cut(rest, k - first);
    }
}

} // verus!
