//! A field with its value, and fields in their encoded form.

use vstd::prelude::*;
use super::varnumber::{lemma_varnumber_round_trip, varnumber_bytes, VarNumber};
use super::vec_decode::spec_read_tlo;
use super::{DecodeError, TLO};

verus! {

/// A type, a length and a value. The length is what the field declares; it
/// is not held against the value.
#[derive(Debug, Clone)]
pub struct TLV {
    t: u64,
    l: u64,
    v: Vec<u8>,
}

/// The encoding of a field: its type and its length as variable-length
/// numbers, then its value.
pub open spec fn tlv_bytes(t: u64, l: u64, v: Seq<u8>) -> Seq<u8> {
    varnumber_bytes(t) + varnumber_bytes(l) + v
}

impl TLV {
    /// The type.
    pub closed spec fn t(&self) -> u64 {
        self.t
    }

    /// The declared length.
    pub closed spec fn l(&self) -> u64 {
        self.l
    }

    /// The value.
    pub closed spec fn v(&self) -> Seq<u8> {
        self.v@
    }

    pub fn new(t: u64, l: u64, v: Vec<u8>) -> (r: Self)
        ensures
            r.t() == t,
            r.l() == l,
            r.v() == v@,
    {
        Self { t, l, v }
    }

    /// The field in its encoded form.
    pub fn to_bytes(&self) -> (r: Vec<u8>)
        ensures
            r@ == tlv_bytes(self.t(), self.l(), self.v()),
    {
        let mut out = VarNumber::from_u64(self.t).to_bytes();
        let mut length = VarNumber::from_u64(self.l).to_bytes();
        out.append(&mut length);
        let mut value = self.v.clone();
        out.append(&mut value);
        out
    }
}

/// Encodes a field of type `t` with the value `value`, whose length it
/// declares.
pub fn encode(t: u64, value: &[u8]) -> (r: Vec<u8>)
    ensures
        r@ == tlv_bytes(t, value@.len() as u64, value@),
{
    let mut out = VarNumber::from_u64(t).to_bytes();
    let mut length = VarNumber::from_u64(value.len() as u64).to_bytes();
    out.append(&mut length);
    out.extend_from_slice(value);
    out
}

/// Decoding an encoded field gives back its type and its length, and the
/// value starts right behind the two; where the declared length is that of
/// the value, the value is found there whole, whatever follows the field.
pub proof fn lemma_tlv_round_trip(t: u64, l: u64, v: Seq<u8>, rest: Seq<u8>)
    ensures
        ({
            let buf = tlv_bytes(t, l, v) + rest;
            let o = varnumber_bytes(t).len() + varnumber_bytes(l).len();
            &&& spec_read_tlo(buf) == Ok::<TLO, DecodeError>(TLO { t, l, o: o as usize })
            &&& l == v.len() ==> buf.subrange(o as int, o + l) == v
        }),
{
    let buf = tlv_bytes(t, l, v) + rest;
    let w = varnumber_bytes(t).len();
    let behind = varnumber_bytes(l) + (v + rest);
    assert(buf =~= varnumber_bytes(t) + behind);
    lemma_varnumber_round_trip(t, behind);
    assert(buf.subrange(w as int, buf.len() as int) =~= behind);
    lemma_varnumber_round_trip(l, v + rest);
    super::varnumber::lemma_varnumber_len(t);
    super::varnumber::lemma_varnumber_len(l);
    if l == v.len() {
        let o = w + varnumber_bytes(l).len();
        assert(buf.subrange(o as int, o + l) =~= v);
    }
}

/// A field that declares the length of its value: decoding finds the type
/// and the length, and behind the two the value and whatever follows the
/// field.
pub proof fn lemma_tlv_value(t: u64, v: Seq<u8>, rest: Seq<u8>)
    requires
        v.len() <= u64::MAX,
    ensures
        ({
            let field = tlv_bytes(t, v.len() as u64, v);
            let o = varnumber_bytes(t).len() + varnumber_bytes(v.len() as u64).len();
            &&& 2 <= o <= 18
            &&& field.len() == o + v.len()
            &&& spec_read_tlo(field + rest) == Ok::<TLO, DecodeError>(
                TLO { t, l: v.len() as u64, o: o as usize },
            )
            &&& (field + rest).skip(o as int) == v + rest
        }),
{
    let field = tlv_bytes(t, v.len() as u64, v);
    let o = varnumber_bytes(t).len() + varnumber_bytes(v.len() as u64).len();
    lemma_tlv_round_trip(t, v.len() as u64, v, rest);
    super::varnumber::lemma_varnumber_len(t);
    super::varnumber::lemma_varnumber_len(v.len() as u64);
    assert((field + rest).skip(o as int) =~= v + rest);
}

} // verus!
