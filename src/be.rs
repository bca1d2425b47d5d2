//! Fixed-width unsigned big-endian integers, read and written through `byteorder`.
use vstd::prelude::*;
use byteorder::{BigEndian, ByteOrder};

verus! {

/// The value of two bytes read as a big-endian `u16`.
pub open spec fn be16(b0: u8, b1: u8) -> nat {
    b0 as nat * 256 + b1 as nat
}

/// The value of four bytes read as a big-endian `u32`.
pub open spec fn be32(b0: u8, b1: u8, b2: u8, b3: u8) -> nat {
    ((b0 as nat * 256 + b1 as nat) * 256 + b2 as nat) * 256 + b3 as nat
}

/// The two big-endian bytes of `n`.
pub open spec fn u16_bytes(n: nat) -> Seq<u8> {
    seq![(n / 256) as u8, (n % 256) as u8]
}

/// The four big-endian bytes of `n`.
pub open spec fn u32_bytes(n: nat) -> Seq<u8> {
    seq![(n / 16777216) as u8, ((n / 65536) % 256) as u8, ((n / 256) % 256) as u8, (n % 256) as u8]
}

/// Relies on `byteorder::BigEndian::read_u16`: the first two bytes at `pos`, most
/// significant first.
#[verifier::external_body]
pub(crate) fn read_u16_at(d: &[u8], pos: usize) -> (r: u16)
    requires
        pos + 2 <= d@.len(),
    ensures
        r as nat == be16(d@[pos as int], d@[pos + 1]),
{
    BigEndian::read_u16(&d[pos..])
}

/// Relies on `byteorder::BigEndian::read_u32`: the first four bytes at `pos`, most
/// significant first.
#[verifier::external_body]
pub(crate) fn read_u32_at(d: &[u8], pos: usize) -> (r: u32)
    requires
        pos + 4 <= d@.len(),
    ensures
        r as nat == be32(d@[pos as int], d@[pos + 1], d@[pos + 2], d@[pos + 3]),
{
    BigEndian::read_u32(&d[pos..])
}

/// Relies on `byteorder::BigEndian::write_u16`: `n` as two bytes, most significant first.
#[verifier::external_body]
pub(crate) fn u16_to_bytes(n: u16) -> (r: Vec<u8>)
    ensures
        r@ == u16_bytes(n as nat),
{
    let mut buf = [0u8; 2];
    BigEndian::write_u16(&mut buf, n);
    buf.to_vec()
}

/// Relies on `byteorder::BigEndian::write_u32`: `n` as four bytes, most significant first.
#[verifier::external_body]
pub(crate) fn u32_to_bytes(n: u32) -> (r: Vec<u8>)
    ensures
        r@ == u32_bytes(n as nat),
{
    let mut buf = [0u8; 4];
    BigEndian::write_u32(&mut buf, n);
    buf.to_vec()
}

/// Reading back the two bytes of a `u16` gives the number again.
pub proof fn lemma_u16_round_trip(n: nat)
    requires
        n < 65536,
    ensures
        u16_bytes(n).len() == 2,
        be16(u16_bytes(n)[0], u16_bytes(n)[1]) == n,
{
    let b = u16_bytes(n);
    assert(n / 256 < 256) by (nonlinear_arith) requires n < 65536;
    assert(b[0] as nat == n / 256);
    assert(b[1] as nat == n % 256);
    assert(n == (n / 256) * 256 + n % 256) by (nonlinear_arith);
}

/// Reading back the four bytes of a `u32` gives the number again.
pub proof fn lemma_u32_round_trip(n: nat)
    requires
        n < 4294967296,
    ensures
        u32_bytes(n).len() == 4,
        be32(u32_bytes(n)[0], u32_bytes(n)[1], u32_bytes(n)[2], u32_bytes(n)[3]) == n,
{
    let b = u32_bytes(n);
    assert(n / 16777216 < 256) by (nonlinear_arith) requires n < 4294967296;
    assert(b[0] as nat == n / 16777216);
    assert(b[1] as nat == (n / 65536) % 256);
    assert(b[2] as nat == (n / 256) % 256);
    assert(b[3] as nat == n % 256);
    assert(((n / 16777216) * 256 + (n / 65536) % 256) == n / 65536) by (nonlinear_arith);
    assert((n / 65536) * 256 + (n / 256) % 256 == n / 256) by (nonlinear_arith);
    assert((n / 256) * 256 + n % 256 == n) by (nonlinear_arith);
}

} // verus!
