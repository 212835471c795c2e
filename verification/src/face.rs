//! Faces: the endpoints that packets come from and go to, and their text
//! form `a.b.c.d:port`, in which the management bridge names them.

use vstd::prelude::*;

verus! {

/// An IPv4 socket address. Port 0 marks what the management bridge hands in.
#[derive(Debug, Clone, Copy, PartialEq, Eq, Hash, Structural)]
pub struct Face {
    /// The address as one number, its first octet most significant.
    pub ip: u32,
    pub port: u16,
}

/// A datagram and the face it came from.
#[derive(Debug)]
pub struct UdpPacket {
    pub data: Vec<u8>,
    pub addr: Face,
}

/// `n` in decimal digits, without leading zeros.
pub open spec fn decimal(n: nat) -> Seq<u8>
    decreases n,
{
    if n < 10 {
        seq![(48 + n) as u8]
    } else {
        decimal(n / 10).push((48 + n % 10) as u8)
    }
}

/// Whether `b` is one of the digits `0` to `9`.
pub open spec fn is_digit(b: u8) -> bool {
    48 <= b <= 57
}

/// How many digits `s` starts with.
pub open spec fn digits_len(s: Seq<u8>) -> nat
    decreases s.len(),
{
    if s.len() > 0 && is_digit(s[0]) {
        1 + digits_len(s.skip(1))
    } else {
        0
    }
}

/// The number that the first `n` bytes of `s` spell in decimal digits.
pub open spec fn decimal_value(s: Seq<u8>, n: nat) -> nat
    decreases n,
{
    if n == 0 {
        0
    } else {
        decimal_value(s, (n - 1) as nat) * 10 + (s[n - 1] - 48) as nat
    }
}

/// The octet that `s` starts with and the count of its digits: one to three
/// digits, no zero before another digit, and no more than 255.
pub open spec fn spec_parse_octet(s: Seq<u8>) -> Option<(u8, nat)> {
    let n = digits_len(s);
    if n == 0 || n > 3 || (n > 1 && s[0] == 48) || decimal_value(s, n) > 255 {
        None
    } else {
        Some((decimal_value(s, n) as u8, n))
    }
}

/// The octet that `s` starts with, where the byte `sep` follows it, and what
/// of `s` comes after that byte.
pub open spec fn spec_parse_octet_then(s: Seq<u8>, sep: u8) -> Option<(u8, Seq<u8>)> {
    match spec_parse_octet(s) {
        Some((v, n)) => if n < s.len() && s[n as int] == sep {
            Some((v, s.skip(n as int + 1)))
        } else {
            None
        },
        None => None,
    }
}

/// The port that the whole of `s` spells: digits only, at least one, and no
/// more than 65535. Zeros in front are accepted.
pub open spec fn spec_parse_port(s: Seq<u8>) -> Option<u16> {
    let n = digits_len(s);
    if n == 0 || n != s.len() || decimal_value(s, n) > 65535 {
        None
    } else {
        Some(decimal_value(s, n) as u16)
    }
}

/// The face that `s` names: four octets with dots between them, a colon,
/// and a port.
pub open spec fn spec_parse_face(s: Seq<u8>) -> Option<Face> {
    match spec_parse_octet_then(s, 46) {
        Some((a, s1)) => match spec_parse_octet_then(s1, 46) {
            Some((b, s2)) => match spec_parse_octet_then(s2, 46) {
                Some((c, s3)) => match spec_parse_octet_then(s3, 58) {
                    Some((d, s4)) => match spec_parse_port(s4) {
                        Some(port) => Some(
                            Face { ip: (((a * 256 + b) * 256 + c) * 256 + d) as u32, port },
                        ),
                        None => None,
                    },
                    None => None,
                },
                None => None,
            },
            None => None,
        },
        None => None,
    }
}

impl Face {
    /// Octet `k` of the address, from 0 for the first to 3 for the last.
    pub open spec fn octet(self, k: int) -> nat {
        if k == 0 {
            self.ip as nat / 0x100_0000
        } else if k == 1 {
            (self.ip as nat / 0x1_0000) % 256
        } else if k == 2 {
            (self.ip as nat / 0x100) % 256
        } else {
            self.ip as nat % 256
        }
    }

    /// The text form: the octets in decimal with dots between them, a colon,
    /// and the port in decimal.
    pub open spec fn text(self) -> Seq<u8> {
        decimal(self.octet(0)) + seq![46u8] + decimal(self.octet(1)) + seq![46u8] + decimal(
            self.octet(2),
        ) + seq![46u8] + decimal(self.octet(3)) + seq![58u8] + decimal(self.port as nat)
    }

    /// Writes the face in its text form.
    pub fn to_text(&self) -> (r: Vec<u8>)
        ensures
            r@ == self.text(),
    {
        let mut out: Vec<u8> = Vec::new();
        push_decimal(&mut out, self.ip / 0x100_0000);
        out.push(46);
        push_decimal(&mut out, (self.ip / 0x1_0000) % 256);
        out.push(46);
        push_decimal(&mut out, (self.ip / 0x100) % 256);
        out.push(46);
        push_decimal(&mut out, self.ip % 256);
        out.push(58);
        push_decimal(&mut out, self.port as u32);
        assert(out@ =~= self.text());
        out
    }

    /// Reads a face from its text form. Anything but four octets, a colon
    /// and a port gives `None`.
    pub fn parse(text: &[u8]) -> (r: Option<Face>)
        ensures
            r == spec_parse_face(text@),
    {
        proof {
            assert(text@.skip(0) =~= text@);
        }
        let (a, p1) = match parse_octet_then(text, 0, 46) {
            Some(x) => x,
            None => {
                return None;
            },
        };
        let (b, p2) = match parse_octet_then(text, p1, 46) {
            Some(x) => x,
            None => {
                return None;
            },
        };
        let (c, p3) = match parse_octet_then(text, p2, 46) {
            Some(x) => x,
            None => {
                return None;
            },
        };
        let (d, p4) = match parse_octet_then(text, p3, 58) {
            Some(x) => x,
            None => {
                return None;
            },
        };
        match parse_port(text, p4) {
            Some(port) => Some(
                Face { ip: ((a as u32 * 256 + b as u32) * 256 + c as u32) * 256 + d as u32, port },
            ),
            None => None,
        }
    }
}

/// Appends `n` in decimal digits to `out`.
fn push_decimal(out: &mut Vec<u8>, n: u32)
    ensures
        final(out)@ == old(out)@ + decimal(n as nat),
    decreases n,
{
    if n >= 10 {
        push_decimal(out, n / 10);
    }
    out.push(48 + (n % 10) as u8);
}

/// Counts the digits of `text` from `pos` on and reads them as a number, as
/// long as that number stays below `limit`.
fn read_digits(text: &[u8], pos: usize, limit: u32) -> (r: (usize, Option<u32>))
    requires
        pos <= text.len(),
        0 < limit <= 100_000,
    ensures
        r.0 == digits_len(text@.skip(pos as int)),
        pos + r.0 <= text.len(),
        match r.1 {
            Some(v) => v == decimal_value(text@.skip(pos as int), r.0 as nat) && v < limit,
            None => decimal_value(text@.skip(pos as int), r.0 as nat) >= limit,
        },
{
    let mut n: usize = 0;
    let mut value: u32 = 0;
    let mut over: bool = false;
    let ghost s = text@.skip(pos as int);
    proof {
        assert(s.skip(0) =~= s);
    }
    while pos + n < text.len() && text[pos + n] >= 48 && text[pos + n] <= 57
        invariant
            pos + n <= text.len(),
            s == text@.skip(pos as int),
            0 < limit <= 100_000,
            digits_len(s) == n + digits_len(s.skip(n as int)),
            !over ==> value == decimal_value(s, n as nat) && value < limit,
            over ==> decimal_value(s, n as nat) >= limit,
        decreases text.len() - pos - n,
    {
        let digit: u32 = (text[pos + n] - 48) as u32;
        proof {
            assert(s.skip(n as int).skip(1) =~= s.skip(n + 1));
            assert(s.skip(n as int)[0] == s[n as int]);
        }
        if !over {
            value = value * 10 + digit;
            if value >= limit {
                over = true;
            }
        }
        n = n + 1;
    }
    if over {
        (n, None)
    } else {
        (n, Some(value))
    }
}

/// Reads an octet at `pos` that the byte `sep` follows; returns the octet and
/// the position behind `sep`.
fn parse_octet_then(text: &[u8], pos: usize, sep: u8) -> (r: Option<(u8, usize)>)
    requires
        pos <= text.len(),
    ensures
        match r {
            Some((v, next)) => next <= text.len() && spec_parse_octet_then(
                text@.skip(pos as int),
                sep,
            ) == Some((v, text@.skip(next as int))),
            None => spec_parse_octet_then(text@.skip(pos as int), sep) is None,
        },
{
    let (n, value) = read_digits(text, pos, 256);
    if n == 0 || n > 3 || (n > 1 && text[pos] == 48) {
        return None;
    }
    let v: u32 = match value {
        Some(v) => v,
        None => {
            return None;
        },
    };
    if pos + n < text.len() && text[pos + n] == sep {
        proof {
            assert(text@.skip(pos as int).skip(n + 1) =~= text@.skip(pos + n + 1));
        }
        Some((v as u8, pos + n + 1))
    } else {
        None
    }
}

/// Reads a port that takes all of `text` from `pos` on.
fn parse_port(text: &[u8], pos: usize) -> (r: Option<u16>)
    requires
        pos <= text.len(),
    ensures
        r == spec_parse_port(text@.skip(pos as int)),
{
    let (n, value) = read_digits(text, pos, 65536);
    if n == 0 || pos + n != text.len() {
        return None;
    }
    match value {
        Some(v) => Some(v as u16),
        None => None,
    }
}

/// A number in decimal is digits throughout, at least one, and starts with
/// a zero only if it is zero.
proof fn lemma_decimal_digits(n: nat)
    ensures
        decimal(n).len() >= 1,
        forall|i: int| 0 <= i < decimal(n).len() ==> is_digit(#[trigger] decimal(n)[i]),
        n > 0 ==> decimal(n)[0] != 48,
        n < 10 ==> decimal(n).len() == 1,
        10 <= n < 100 ==> decimal(n).len() == 2,
        100 <= n < 1000 ==> decimal(n).len() == 3,
        1000 <= n < 10000 ==> decimal(n).len() == 4,
        10000 <= n < 100000 ==> decimal(n).len() == 5,
    decreases n,
{
    if n >= 10 {
        lemma_decimal_digits(n / 10);
        assert(decimal(n)[0] == decimal(n / 10)[0]);
    }
}

/// The digits that `s` starts with are counted as far as they go.
proof fn lemma_digits_len(s: Seq<u8>, k: nat)
    requires
        k <= s.len(),
        forall|i: int| 0 <= i < k ==> is_digit(#[trigger] s[i]),
        k == s.len() || !is_digit(s[k as int]),
    ensures
        digits_len(s) == k,
    decreases k,
{
    if k > 0 {
        let rest = s.skip(1);
        assert forall|i: int| 0 <= i < k - 1 implies is_digit(#[trigger] rest[i]) by {
            assert(rest[i] == s[i + 1]);
        }
        lemma_digits_len(rest, (k - 1) as nat);
    }
}

/// The number that the first `n` bytes spell depends on those bytes alone.
proof fn lemma_decimal_value_prefix(a: Seq<u8>, b: Seq<u8>, n: nat)
    requires
        n <= a.len(),
        n <= b.len(),
        forall|i: int| 0 <= i < n ==> a[i] == b[i],
    ensures
        decimal_value(a, n) == decimal_value(b, n),
    decreases n,
{
    if n > 0 {
        lemma_decimal_value_prefix(a, b, (n - 1) as nat);
    }
}

/// A number in decimal spells that number, whatever follows it.
proof fn lemma_decimal_value(n: nat, rest: Seq<u8>)
    ensures
        decimal_value(decimal(n) + rest, decimal(n).len()) == n,
    decreases n,
{
    let s = decimal(n) + rest;
    let len = decimal(n).len();
    lemma_decimal_digits(n);
    if n < 10 {
        assert(s[0] == (48 + n) as u8);
        assert(decimal_value(s, 0) == 0);
    } else {
        let front = decimal(n / 10);
        lemma_decimal_digits(n / 10);
        lemma_decimal_value(n / 10, rest);
        lemma_decimal_value_prefix(s, front + rest, front.len());
        assert(s[len - 1] == (48 + n % 10) as u8);
    }
}

/// An octet in decimal, with a byte that is no digit behind it, is read
/// back as that octet, and what follows the byte is left.
proof fn lemma_octet_round_trip(v: nat, sep: u8, rest: Seq<u8>)
    requires
        v <= 255,
        !is_digit(sep),
    ensures
        spec_parse_octet_then(decimal(v) + seq![sep] + rest, sep) == Some((v as u8, rest)),
{
    let s = decimal(v) + seq![sep] + rest;
    let len = decimal(v).len();
    lemma_decimal_digits(v);
    assert forall|i: int| 0 <= i < len implies is_digit(#[trigger] s[i]) by {
        assert(s[i] == decimal(v)[i]);
    }
    assert(s[len as int] == sep);
    lemma_digits_len(s, len);
    lemma_decimal_value(v, seq![sep] + rest);
    assert(s =~= decimal(v) + (seq![sep] + rest));
    assert(s[0] == decimal(v)[0]);
    assert(s.skip(len as int + 1) =~= rest);
}

/// The four octets of an address are bytes and put the address together
/// again.
proof fn lemma_octets(face: Face)
    ensures
        face.octet(0) <= 255,
        face.octet(1) <= 255,
        face.octet(2) <= 255,
        face.octet(3) <= 255,
        ((face.octet(0) * 256 + face.octet(1)) * 256 + face.octet(2)) * 256 + face.octet(3)
            == face.ip,
{
}

/// The text form of a face takes 9 to 21 bytes.
pub proof fn lemma_face_text_len(face: Face)
    ensures
        9 <= face.text().len() <= 21,
{
    lemma_octets(face);
    lemma_decimal_digits(face.octet(0));
    lemma_decimal_digits(face.octet(1));
    lemma_decimal_digits(face.octet(2));
    lemma_decimal_digits(face.octet(3));
    lemma_decimal_digits(face.port as nat);
}

/// A port in decimal, with nothing behind it, is read back as that port.
proof fn lemma_port_round_trip(port: u16)
    ensures
        spec_parse_port(decimal(port as nat)) == Some(port),
{
    let text = decimal(port as nat);
    lemma_decimal_digits(port as nat);
    lemma_digits_len(text, text.len());
    lemma_decimal_value(port as nat, Seq::empty());
    assert(text + Seq::<u8>::empty() =~= text);
}

/// The text form of a face is read back as that face.
pub proof fn lemma_face_text_round_trip(face: Face)
    ensures
        spec_parse_face(face.text()) == Some(face),
{
    let (a, b, c, d) = (face.octet(0), face.octet(1), face.octet(2), face.octet(3));
    let s4 = decimal(face.port as nat);
    let s3 = decimal(d) + seq![58u8] + s4;
    let s2 = decimal(c) + seq![46u8] + s3;
    let s1 = decimal(b) + seq![46u8] + s2;
    let s0 = decimal(a) + seq![46u8] + s1;
    assert(face.text() =~= s0);
    lemma_octets(face);
    lemma_octet_round_trip(a, 46, s1);
    lemma_octet_round_trip(b, 46, s2);
    lemma_octet_round_trip(c, 46, s3);
    lemma_octet_round_trip(d, 58, s4);
    lemma_port_round_trip(face.port);
    assert(spec_parse_octet_then(s0, 46) == Some((a as u8, s1)));
    assert(spec_parse_octet_then(s1, 46) == Some((b as u8, s2)));
    assert(spec_parse_octet_then(s2, 46) == Some((c as u8, s3)));
    assert(spec_parse_octet_then(s3, 58) == Some((d as u8, s4)));
    assert(spec_parse_port(s4) == Some(face.port));
    let ip = (((a as u8 * 256 + b as u8) * 256 + c as u8) * 256 + d as u8) as u32;
    assert(ip == face.ip);
    assert(spec_parse_face(s0) == Some(Face { ip, port: face.port }));
}

} // verus!
