//! Variable-length numbers in their encoded form.

use vstd::prelude::*;
use super::vec_decode::{be_uint, spec_read_varnumber};

verus! {

/// The `n` low bytes of `v`, most significant first.
pub open spec fn be_bytes(v: nat, n: nat) -> Seq<u8>
    decreases n,
{
    if n == 0 {
        Seq::empty()
    } else {
        be_bytes(v / 256, (n - 1) as nat).push((v % 256) as u8)
    }
}

/// The shortest encoding of `v`: one byte up to 252; else a marker byte 253,
/// 254 or 255 and then 2, 4 or 8 bytes in big-endian order.
pub open spec fn varnumber_bytes(v: u64) -> Seq<u8> {
    if v <= 252 {
        seq![v as u8]
    } else if v <= 0xffff {
        seq![253u8] + be_bytes(v as nat, 2)
    } else if v <= 0xffff_ffff {
        seq![254u8] + be_bytes(v as nat, 4)
    } else {
        seq![255u8] + be_bytes(v as nat, 8)
    }
}

/// A number together with its encoding.
#[derive(Debug, PartialEq, Hash)]
pub struct VarNumber {
    inner: Vec<u8>,
    value: u64,
}

impl View for VarNumber {
    type V = u64;

    closed spec fn view(&self) -> u64 {
        self.value
    }
}

impl Clone for VarNumber {
    fn clone(&self) -> (r: Self)
        ensures
            r@ == self@,
    {
        proof {
            use_type_invariant(self);
        }
        VarNumber { inner: self.inner.clone(), value: self.value }
    }
}

impl VarNumber {
    #[verifier::type_invariant]
    spec fn encoded(&self) -> bool {
        self.inner@ == varnumber_bytes(self.value)
    }

    /// The length of the encoding in bytes.
    pub fn length(&self) -> (n: usize)
        ensures
            n == varnumber_bytes(self@).len(),
    {
        proof {
            use_type_invariant(self);
        }
        self.inner.len()
    }

    /// Encodes `value`.
    pub fn from_u64(value: u64) -> (r: Self)
        ensures
            r@ == value,
    {
        let mut inner: Vec<u8> = Vec::new();
        if value <= 252 {
            inner.push(value as u8);
        } else if value <= 65535 {
            inner.push(253);
            push_be(&mut inner, value, 2);
        } else if value <= 4294967295 {
            inner.push(254);
            push_be(&mut inner, value, 4);
        } else {
            inner.push(255);
            push_be(&mut inner, value, 8);
        }
        VarNumber { inner, value }
    }

    /// The number.
    pub fn as_u64(&self) -> (v: u64)
        ensures
            v == self@,
    {
        self.value
    }

    /// A copy of the encoding.
    pub fn to_bytes(&self) -> (b: Vec<u8>)
        ensures
            b@ == varnumber_bytes(self@),
    {
        proof {
            use_type_invariant(self);
        }
        self.inner.clone()
    }
}

impl core::ops::Add for VarNumber {
    type Output = VarNumber;

    /// The sum, encoded.
    fn add(self, rhs: VarNumber) -> (r: VarNumber)
        ensures
            r@ == self@ + rhs@,
    {
        VarNumber::from_u64(self.as_u64() + rhs.as_u64())
    }
}

/// What `+` asks of its operands: a sum that fits in 64 bits. The sum itself
/// is stated by the contract of `add`.
impl vstd::std_specs::ops::AddSpecImpl for VarNumber {
    open spec fn obeys_add_spec() -> bool {
        false
    }

    open spec fn add_req(self, rhs: VarNumber) -> bool {
        self@ + rhs@ <= u64::MAX
    }

    open spec fn add_spec(self, rhs: VarNumber) -> VarNumber {
        self
    }
}

impl core::ops::Add<u64> for VarNumber {
    type Output = VarNumber;

    /// The sum, encoded.
    fn add(self, rhs: u64) -> (r: VarNumber)
        ensures
            r@ == self@ + rhs,
    {
        VarNumber::from_u64(self.as_u64() + rhs)
    }
}

/// What `+` asks of its operands: a sum that fits in 64 bits. The sum itself
/// is stated by the contract of `add`.
impl vstd::std_specs::ops::AddSpecImpl<u64> for VarNumber {
    open spec fn obeys_add_spec() -> bool {
        false
    }

    open spec fn add_req(self, rhs: u64) -> bool {
        self@ + rhs <= u64::MAX
    }

    open spec fn add_spec(self, rhs: u64) -> VarNumber {
        self
    }
}

impl From<u8> for VarNumber {
    fn from(u: u8) -> (r: VarNumber)
        ensures
            r@ == u,
    {
        VarNumber::from_u64(u as u64)
    }
}

impl vstd::std_specs::convert::FromSpecImpl<u8> for VarNumber {
    open spec fn obeys_from_spec() -> bool {
        false
    }

    open spec fn from_spec(u: u8) -> VarNumber {
        arbitrary()
    }
}

impl From<u16> for VarNumber {
    fn from(u: u16) -> (r: VarNumber)
        ensures
            r@ == u,
    {
        VarNumber::from_u64(u as u64)
    }
}

impl vstd::std_specs::convert::FromSpecImpl<u16> for VarNumber {
    open spec fn obeys_from_spec() -> bool {
        false
    }

    open spec fn from_spec(u: u16) -> VarNumber {
        arbitrary()
    }
}

impl From<u32> for VarNumber {
    fn from(u: u32) -> (r: VarNumber)
        ensures
            r@ == u,
    {
        VarNumber::from_u64(u as u64)
    }
}

impl vstd::std_specs::convert::FromSpecImpl<u32> for VarNumber {
    open spec fn obeys_from_spec() -> bool {
        false
    }

    open spec fn from_spec(u: u32) -> VarNumber {
        arbitrary()
    }
}

impl From<usize> for VarNumber {
    fn from(u: usize) -> (r: VarNumber)
        ensures
            r@ == u,
    {
        VarNumber::from_u64(u as u64)
    }
}

impl vstd::std_specs::convert::FromSpecImpl<usize> for VarNumber {
    open spec fn obeys_from_spec() -> bool {
        false
    }

    open spec fn from_spec(u: usize) -> VarNumber {
        arbitrary()
    }
}

impl From<u64> for VarNumber {
    fn from(u: u64) -> (r: VarNumber)
        ensures
            r@ == u,
    {
        VarNumber::from_u64(u)
    }
}

impl vstd::std_specs::convert::FromSpecImpl<u64> for VarNumber {
    open spec fn obeys_from_spec() -> bool {
        false
    }

    open spec fn from_spec(u: u64) -> VarNumber {
        arbitrary()
    }
}

/// Appends the `n` low bytes of `value` to `out`, most significant first.
fn push_be(out: &mut Vec<u8>, value: u64, n: usize)
    requires
        n <= 8,
    ensures
        final(out)@ == old(out)@ + be_bytes(value as nat, n as nat),
    decreases n,
{
    if n > 0 {
        push_be(out, value / 256, n - 1);
        out.push((value % 256) as u8);
    }
}

/// The encoding takes 1 byte up to 252, 3 up to 65535, 5 up to 2^32 - 1 and
/// 9 beyond.
pub proof fn lemma_varnumber_len(v: u64)
    ensures
        varnumber_bytes(v).len() == if v <= 252 {
            1nat
        } else if v <= 0xffff {
            3
        } else if v <= 0xffff_ffff {
            5
        } else {
            9
        },
{
    reveal_with_fuel(be_bytes, 9);
}

/// Decoding what was encoded gives the number back and consumes exactly the
/// encoding, whatever follows it in the buffer.
pub proof fn lemma_varnumber_round_trip(v: u64, rest: Seq<u8>)
    ensures
        spec_read_varnumber(varnumber_bytes(v) + rest) == Ok::<(u64, usize), super::DecodeError>(
            (v, varnumber_bytes(v).len() as usize),
        ),
{
    reveal_with_fuel(be_bytes, 9);
    reveal_with_fuel(be_uint, 9);
    let buf = varnumber_bytes(v) + rest;
    if v <= 252 {
    } else if v <= 0xffff {
        assert(buf[0] == 253);
    } else if v <= 0xffff_ffff {
        assert(buf[0] == 254);
    } else {
        assert(buf[0] == 255);
    }
}

} // verus!
