//! Decoding from a contiguous buffer. Nothing is copied: a decoded field is
//! described by offsets into the buffer it was read from.

use vstd::prelude::*;
use vstd::slice::slice_subrange;
use super::{DecodeError, TLO};

verus! {

/// The number that `n` bytes of `buf`, starting at `start`, spell in
/// big-endian order.
pub open spec fn be_uint(buf: Seq<u8>, start: int, n: nat) -> nat
    decreases n,
{
    if n == 0 {
        0
    } else {
        be_uint(buf, start, (n - 1) as nat) * 256 + buf[start + n - 1] as nat
    }
}

/// How many bytes a variable-length number takes, as its first byte says.
pub open spec fn varnumber_len(first: u8) -> nat {
    if first <= 252 {
        1
    } else if first == 253 {
        3
    } else if first == 254 {
        5
    } else {
        9
    }
}

/// The variable-length number at the start of `buf` and the count of bytes it
/// takes: a first byte up to 252 is the number itself; 253, 254 and 255
/// announce 2, 4 and 8 bytes in big-endian order.
pub open spec fn spec_read_varnumber(buf: Seq<u8>) -> Result<(u64, usize), DecodeError> {
    if buf.len() < 1 || buf.len() < varnumber_len(buf[0]) {
        Err(DecodeError::UnexpectedEof)
    } else if buf[0] <= 252 {
        Ok((buf[0] as u64, 1))
    } else {
        let n = varnumber_len(buf[0]);
        Ok((be_uint(buf, 1, (n - 1) as nat) as u64, n as usize))
    }
}

/// The fixed-width big-endian integer of `len` bytes at the start of `buf`.
pub open spec fn spec_read_nni(buf: Seq<u8>, len: u64) -> Result<u64, DecodeError> {
    if buf.len() < len {
        Err(DecodeError::InsufficientLength)
    } else if len == 1 || len == 2 || len == 4 || len == 8 {
        Ok(be_uint(buf, 0, len as nat) as u64)
    } else {
        Err(DecodeError::InvalidNni)
    }
}

/// The field descriptor at the start of `buf`: a type, then a length, both
/// variable-length numbers; the value starts right after them.
pub open spec fn spec_read_tlo(buf: Seq<u8>) -> Result<TLO, DecodeError> {
    match spec_read_varnumber(buf) {
        Err(e) => Err(e),
        Ok((t, l_t)) => match spec_read_varnumber(buf.subrange(l_t as int, buf.len() as int)) {
            Err(e) => Err(e),
            Ok((l, l_l)) => Ok(TLO { t, l, o: (l_t + l_l) as usize }),
        },
    }
}

/// A big-endian number of `n` bytes is below 256 to the power `n`; stated for
/// the widths the wire format uses.
pub proof fn lemma_be_uint_bound(buf: Seq<u8>, start: int, n: nat)
    requires
        n <= 8,
    ensures
        n == 1 ==> be_uint(buf, start, n) <= 0xff,
        n == 2 ==> be_uint(buf, start, n) <= 0xffff,
        n == 4 ==> be_uint(buf, start, n) <= 0xffff_ffff,
        n == 8 ==> be_uint(buf, start, n) <= 0xffff_ffff_ffff_ffff,
{
    reveal_with_fuel(be_uint, 9);
}

/// A field's value starts 2 to 18 bytes into the field, and within the
/// buffer that the descriptor was read from.
pub proof fn lemma_tlo_offset(buf: Seq<u8>)
    requires
        spec_read_tlo(buf) is Ok,
    ensures
        2 <= spec_read_tlo(buf).unwrap().o <= 18,
        spec_read_tlo(buf).unwrap().o <= buf.len(),
{
}

/// Reads a variable-length number from the start of `vec`.
pub fn read_varnumber(vec: &[u8]) -> (r: Result<(u64, usize), DecodeError>)
    ensures
        r == spec_read_varnumber(vec@),
{
    if vec.len() < 1 {
        return Err(DecodeError::UnexpectedEof);
    }
    let first: u8 = vec[0];
    if first <= 252 {
        Ok((first as u64, 1))
    } else if first == 253 {
        if vec.len() < 3 {
            return Err(DecodeError::UnexpectedEof);
        }
        Ok((read_be(vec, 1, 2), 3))
    } else if first == 254 {
        if vec.len() < 5 {
            return Err(DecodeError::UnexpectedEof);
        }
        Ok((read_be(vec, 1, 4), 5))
    } else {
        if vec.len() < 9 {
            return Err(DecodeError::UnexpectedEof);
        }
        Ok((read_be(vec, 1, 8), 9))
    }
}

/// Folds `n` bytes of `vec`, from `start` on, into a big-endian number.
fn read_be(vec: &[u8], start: usize, n: usize) -> (r: u64)
    requires
        n <= 8,
        start + n <= vec.len(),
    ensures
        r == be_uint(vec@, start as int, n as nat),
{
    let mut acc: u64 = 0;
    let mut i: usize = 0;
    while i < n
        invariant
            i <= n <= 8,
            start + n <= vec.len(),
            acc == be_uint(vec@, start as int, i as nat),
            i == 0 ==> acc == 0,
            i == 1 ==> acc <= 0xff,
            i == 2 ==> acc <= 0xffff,
            i == 3 ==> acc <= 0xff_ffff,
            i == 4 ==> acc <= 0xffff_ffff,
            i == 5 ==> acc <= 0xff_ffff_ffff,
            i == 6 ==> acc <= 0xffff_ffff_ffff,
            i == 7 ==> acc <= 0xff_ffff_ffff_ffff,
        decreases n - i,
    {
        acc = acc * 256 + vec[start + i] as u64;
        i = i + 1;
    }
    acc
}

/// Reads a non-negative integer field of `len` bytes from the start of `vec`.
pub fn read_nni(vec: &[u8], len: u64) -> (r: Result<u64, DecodeError>)
    ensures
        r == spec_read_nni(vec@, len),
{
    if (vec.len() as u64) < len {
        return Err(DecodeError::InsufficientLength);
    }
    if len == 1 {
        Ok(read_be(vec, 0, 1))
    } else if len == 2 {
        Ok(read_be(vec, 0, 2))
    } else if len == 4 {
        Ok(read_be(vec, 0, 4))
    } else if len == 8 {
        Ok(read_be(vec, 0, 8))
    } else {
        Err(DecodeError::InvalidNni)
    }
}

/// Reads one byte.
pub fn read_u8(vec: &[u8]) -> (r: Result<u8, DecodeError>)
    ensures
        r == if vec@.len() < 1 {
            Err::<u8, DecodeError>(DecodeError::NotEnoughData)
        } else {
            Ok(vec@[0])
        },
{
    if vec.len() < 1 {
        return Err(DecodeError::NotEnoughData);
    }
    Ok(vec[0])
}

/// Reads a big-endian 16-bit integer.
pub fn read_u16(vec: &[u8]) -> (r: Result<u16, DecodeError>)
    ensures
        r == if vec@.len() < 2 {
            Err::<u16, DecodeError>(DecodeError::NotEnoughData)
        } else {
            Ok(be_uint(vec@, 0, 2) as u16)
        },
{
    if vec.len() < 2 {
        return Err(DecodeError::NotEnoughData);
    }
    proof {
        lemma_be_uint_bound(vec@, 0, 2);
    }
    Ok(read_be(vec, 0, 2) as u16)
}

/// Reads a big-endian 32-bit integer.
pub fn read_u32(vec: &[u8]) -> (r: Result<u32, DecodeError>)
    ensures
        r == if vec@.len() < 4 {
            Err::<u32, DecodeError>(DecodeError::NotEnoughData)
        } else {
            Ok(be_uint(vec@, 0, 4) as u32)
        },
{
    if vec.len() < 4 {
        return Err(DecodeError::NotEnoughData);
    }
    proof {
        lemma_be_uint_bound(vec@, 0, 4);
    }
    Ok(read_be(vec, 0, 4) as u32)
}

/// Reads a big-endian 64-bit integer.
pub fn read_u64(vec: &[u8]) -> (r: Result<u64, DecodeError>)
    ensures
        r == if vec@.len() < 8 {
            Err::<u64, DecodeError>(DecodeError::NotEnoughData)
        } else {
            Ok(be_uint(vec@, 0, 8) as u64)
        },
{
    if vec.len() < 8 {
        return Err(DecodeError::NotEnoughData);
    }
    Ok(read_be(vec, 0, 8))
}

/// Reads the type and length at the start of `vec` and says where the value
/// starts. The value itself is not looked at, nor is its length held against
/// the buffer.
pub fn read_tlo(vec: &[u8]) -> (r: Result<TLO, DecodeError>)
    ensures
        r == spec_read_tlo(vec@),
{
    let (t, l_t) = match read_varnumber(vec) {
        Ok(p) => p,
        Err(e) => {
            return Err(e);
        },
    };
    let rest = slice_subrange(vec, l_t, vec.len());
    let (l, l_l) = match read_varnumber(rest) {
        Ok(p) => p,
        Err(e) => {
            return Err(e);
        },
    };
    Ok(TLO { t, l, o: l_t + l_l })
}

} // verus!
