//! Fixed-width integers as bytes, in either byte order.
use byteorder::ByteOrder;
use vstd::prelude::*;

verus! {

/// The byte order in which multi-byte fields of a chunk are stored.
#[derive(Clone, Copy, Debug, PartialEq, Eq, Structural)]
pub enum Endian {
    /// Least significant byte first.
    Little,
    /// Most significant byte first.
    Big,
}

/// The four bytes of `n`, least significant first.
pub open spec fn le32(n: u32) -> Seq<u8> {
    seq![n as u8, (n >> 8) as u8, (n >> 16) as u8, (n >> 24) as u8]
}

/// The eight bytes of `n`, least significant first.
pub open spec fn le64(n: u64) -> Seq<u8> {
    seq![
        n as u8,
        (n >> 8) as u8,
        (n >> 16) as u8,
        (n >> 24) as u8,
        (n >> 32) as u8,
        (n >> 40) as u8,
        (n >> 48) as u8,
        (n >> 56) as u8,
    ]
}

/// The integer whose bytes, least significant first, are `b0` to `b3`.
pub open spec fn u32_le(b0: u8, b1: u8, b2: u8, b3: u8) -> u32 {
    (b0 as u32) | ((b1 as u32) << 8) | ((b2 as u32) << 16) | ((b3 as u32) << 24)
}

/// The integer whose bytes, least significant first, are `b0` to `b7`.
pub open spec fn u64_le(b0: u8, b1: u8, b2: u8, b3: u8, b4: u8, b5: u8, b6: u8, b7: u8) -> u64 {
    (b0 as u64) | ((b1 as u64) << 8) | ((b2 as u64) << 16) | ((b3 as u64) << 24) | ((b4 as u64)
        << 32) | ((b5 as u64) << 40) | ((b6 as u64) << 48) | ((b7 as u64) << 56)
}

/// The four bytes of `n` in byte order `e`.
pub open spec fn bytes32(n: u32, e: Endian) -> Seq<u8> {
    match e {
        Endian::Little => le32(n),
        Endian::Big => le32(n).reverse(),
    }
}

/// The eight bytes of `n` in byte order `e`.
pub open spec fn bytes64(n: u64, e: Endian) -> Seq<u8> {
    match e {
        Endian::Little => le64(n),
        Endian::Big => le64(n).reverse(),
    }
}

/// The integer stored in byte order `e` in the four bytes of `d` from `p` on.
pub open spec fn value32(d: Seq<u8>, p: int, e: Endian) -> u32 {
    match e {
        Endian::Little => u32_le(d[p], d[p + 1], d[p + 2], d[p + 3]),
        Endian::Big => u32_le(d[p + 3], d[p + 2], d[p + 1], d[p]),
    }
}

/// The integer stored in byte order `e` in the eight bytes of `d` from `p` on.
pub open spec fn value64(d: Seq<u8>, p: int, e: Endian) -> u64 {
    match e {
        Endian::Little => u64_le(d[p], d[p + 1], d[p + 2], d[p + 3], d[p + 4], d[p + 5], d[p + 6], d[p + 7]),
        Endian::Big => u64_le(d[p + 7], d[p + 6], d[p + 5], d[p + 4], d[p + 3], d[p + 2], d[p + 1], d[p]),
    }
}

/// Relies on byteorder's `LittleEndian::write_u32`: it stores `n` least
/// significant byte first.
#[verifier::external_body]
fn le_write_u32(n: u32) -> (r: [u8; 4])
    ensures
        r@ == le32(n),
{
    let mut b = [0u8; 4];
    byteorder::LittleEndian::write_u32(&mut b, n);
    b
}

/// Relies on byteorder's `BigEndian::write_u32`: it stores `n` most
/// significant byte first.
#[verifier::external_body]
fn be_write_u32(n: u32) -> (r: [u8; 4])
    ensures
        r@ == le32(n).reverse(),
{
    let mut b = [0u8; 4];
    byteorder::BigEndian::write_u32(&mut b, n);
    b
}

/// Relies on byteorder's `LittleEndian::write_u64`: it stores `n` least
/// significant byte first.
#[verifier::external_body]
fn le_write_u64(n: u64) -> (r: [u8; 8])
    ensures
        r@ == le64(n),
{
    let mut b = [0u8; 8];
    byteorder::LittleEndian::write_u64(&mut b, n);
    b
}

/// Relies on byteorder's `BigEndian::write_u64`: it stores `n` most
/// significant byte first.
#[verifier::external_body]
fn be_write_u64(n: u64) -> (r: [u8; 8])
    ensures
        r@ == le64(n).reverse(),
{
    let mut b = [0u8; 8];
    byteorder::BigEndian::write_u64(&mut b, n);
    b
}

/// Relies on byteorder's `LittleEndian::read_u32`: it reads the first four
/// bytes of its argument, least significant first (and panics on fewer).
#[verifier::external_body]
fn le_read_u32(d: &[u8], p: usize) -> (r: u32)
    requires
        p + 4 <= d@.len(),
    ensures
        r == u32_le(d@[p as int], d@[p + 1], d@[p + 2], d@[p + 3]),
{
    byteorder::LittleEndian::read_u32(&d[p..])
}

/// Relies on byteorder's `BigEndian::read_u32`: it reads the first four
/// bytes of its argument, most significant first (and panics on fewer).
#[verifier::external_body]
fn be_read_u32(d: &[u8], p: usize) -> (r: u32)
    requires
        p + 4 <= d@.len(),
    ensures
        r == u32_le(d@[p + 3], d@[p + 2], d@[p + 1], d@[p as int]),
{
    byteorder::BigEndian::read_u32(&d[p..])
}

/// Relies on byteorder's `LittleEndian::read_u64`: it reads the first eight
/// bytes of its argument, least significant first (and panics on fewer).
#[verifier::external_body]
fn le_read_u64(d: &[u8], p: usize) -> (r: u64)
    requires
        p + 8 <= d@.len(),
    ensures
        r == u64_le(d@[p as int], d@[p + 1], d@[p + 2], d@[p + 3], d@[p + 4], d@[p + 5], d@[p + 6], d@[p + 7]),
{
    byteorder::LittleEndian::read_u64(&d[p..])
}

/// Relies on byteorder's `BigEndian::read_u64`: it reads the first eight
/// bytes of its argument, most significant first (and panics on fewer).
#[verifier::external_body]
fn be_read_u64(d: &[u8], p: usize) -> (r: u64)
    requires
        p + 8 <= d@.len(),
    ensures
        r == u64_le(d@[p + 7], d@[p + 6], d@[p + 5], d@[p + 4], d@[p + 3], d@[p + 2], d@[p + 1], d@[p as int]),
{
    byteorder::BigEndian::read_u64(&d[p..])
}

/// Relies on byteorder's `NativeEndian::read_u16` (an alias of the byte order
/// of the target): the bytes `[1, 0]` read as 1 on a little-endian target and
/// as 0x100 on a big-endian one.
#[verifier::external_body]
fn native_read_one() -> (r: u16)
    ensures
        r == 1 || r == 0x100,
{
    byteorder::NativeEndian::read_u16(&[1, 0])
}

/// The byte order of the machine this runs on.
pub fn native_endian() -> (r: Endian) {
    if native_read_one() == 1 {
        Endian::Little
    } else {
        Endian::Big
    }
}

/// The four bytes of `n` in byte order `e`.
pub fn u32_to_bytes(n: u32, e: Endian) -> (r: [u8; 4])
    ensures
        r@ == bytes32(n, e),
{
    match e {
        Endian::Little => le_write_u32(n),
        Endian::Big => be_write_u32(n),
    }
}

/// The eight bytes of `n` in byte order `e`.
pub fn u64_to_bytes(n: u64, e: Endian) -> (r: [u8; 8])
    ensures
        r@ == bytes64(n, e),
{
    match e {
        Endian::Little => le_write_u64(n),
        Endian::Big => be_write_u64(n),
    }
}

/// The integer stored in byte order `e` in the four bytes of `d` from `p` on.
pub fn u32_from_bytes(d: &[u8], p: usize, e: Endian) -> (r: u32)
    requires
        p + 4 <= d@.len(),
    ensures
        r == value32(d@, p as int, e),
{
    match e {
        Endian::Little => le_read_u32(d, p),
        Endian::Big => be_read_u32(d, p),
    }
}

/// The integer stored in byte order `e` in the eight bytes of `d` from `p` on.
pub fn u64_from_bytes(d: &[u8], p: usize, e: Endian) -> (r: u64)
    requires
        p + 8 <= d@.len(),
    ensures
        r == value64(d@, p as int, e),
{
    match e {
        Endian::Little => le_read_u64(d, p),
        Endian::Big => be_read_u64(d, p),
    }
}

/// Reading back the four bytes of an integer gives the integer.
pub proof fn lemma_value32_bytes32(n: u32, e: Endian, d: Seq<u8>, p: int)
    requires
        0 <= p,
        p + 4 <= d.len(),
        d.subrange(p, p + 4) == bytes32(n, e),
    ensures
        value32(d, p, e) == n,
{
    assert(d[p] == d.subrange(p, p + 4)[0]);
    assert(d[p + 1] == d.subrange(p, p + 4)[1]);
    assert(d[p + 2] == d.subrange(p, p + 4)[2]);
    assert(d[p + 3] == d.subrange(p, p + 4)[3]);
    assert(u32_le(n as u8, (n >> 8) as u8, (n >> 16) as u8, (n >> 24) as u8) == n) by (bit_vector);
}

/// Reading back the eight bytes of an integer gives the integer.
pub proof fn lemma_value64_bytes64(n: u64, e: Endian, d: Seq<u8>, p: int)
    requires
        0 <= p,
        p + 8 <= d.len(),
        d.subrange(p, p + 8) == bytes64(n, e),
    ensures
        value64(d, p, e) == n,
{
    let s = d.subrange(p, p + 8);
    assert(d[p] == s[0] && d[p + 1] == s[1] && d[p + 2] == s[2] && d[p + 3] == s[3]);
    assert(d[p + 4] == s[4] && d[p + 5] == s[5] && d[p + 6] == s[6] && d[p + 7] == s[7]);
    assert(u64_le(
        n as u8,
        (n >> 8) as u8,
        (n >> 16) as u8,
        (n >> 24) as u8,
        (n >> 32) as u8,
        (n >> 40) as u8,
        (n >> 48) as u8,
        (n >> 56) as u8,
    ) == n) by (bit_vector);
}

} // verus!
