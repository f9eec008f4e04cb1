//! A chunk whose header differs from the expected one in any byte is
//! rejected, with an error that names the field of that byte.
use vstd::prelude::*;

use crate::endian::{u32_le, u64_le, value32, value64, Endian};
use crate::read::{p_chunk, p_header, probe_value, HeaderField, ReadError};
use crate::round_trip::{holds_at, lemma_header};
use crate::write::header;
use crate::{DATA, SIGNATURE};

verus! {

/// The header field that byte `i` of a chunk belongs to.
pub open spec fn header_field_at(i: int) -> HeaderField {
    if i < 4 {
        HeaderField::Signature
    } else if i == 4 {
        HeaderField::Version
    } else if i == 5 {
        HeaderField::Format
    } else if i < 12 {
        HeaderField::TestData
    } else if i == 12 {
        HeaderField::SizeInt
    } else if i == 13 {
        HeaderField::SizeSize
    } else if i == 14 {
        HeaderField::SizeInstruction
    } else if i == 15 {
        HeaderField::SizeInteger
    } else if i == 16 {
        HeaderField::SizeNumber
    } else if i < 25 {
        HeaderField::TestInteger
    } else {
        HeaderField::TestNumber
    }
}

proof fn lemma_u32_le_injective(a0: u8, a1: u8, a2: u8, a3: u8, b0: u8, b1: u8, b2: u8, b3: u8)
    requires
        u32_le(a0, a1, a2, a3) == u32_le(b0, b1, b2, b3),
    ensures
        a0 == b0 && a1 == b1 && a2 == b2 && a3 == b3,
{
    assert(a0 == b0 && a1 == b1 && a2 == b2 && a3 == b3) by (bit_vector)
        requires
            (a0 as u32) | ((a1 as u32) << 8) | ((a2 as u32) << 16) | ((a3 as u32) << 24) == (b0 as u32)
                | ((b1 as u32) << 8) | ((b2 as u32) << 16) | ((b3 as u32) << 24),
    ;
}

proof fn lemma_u64_le_injective(a: Seq<u8>, b: Seq<u8>)
    requires
        a.len() == 8,
        b.len() == 8,
        u64_le(a[0], a[1], a[2], a[3], a[4], a[5], a[6], a[7]) == u64_le(b[0], b[1], b[2], b[3], b[4], b[5], b[6], b[7]),
    ensures
        a == b,
{
    let (a0, a1, a2, a3, a4, a5, a6, a7) = (a[0], a[1], a[2], a[3], a[4], a[5], a[6], a[7]);
    let (b0, b1, b2, b3, b4, b5, b6, b7) = (b[0], b[1], b[2], b[3], b[4], b[5], b[6], b[7]);
    assert(a0 == b0 && a1 == b1 && a2 == b2 && a3 == b3 && a4 == b4 && a5 == b5 && a6 == b6 && a7
        == b7) by (bit_vector)
        requires
            u64_le(a0, a1, a2, a3, a4, a5, a6, a7) == u64_le(b0, b1, b2, b3, b4, b5, b6, b7),
    ;
    assert(a =~= b);
}

/// Two byte strings that differ at `i` and nowhere else among the eight
/// bytes from `p` on hold different integers there.
proof fn lemma_value64_differs(c: Seq<u8>, d: Seq<u8>, p: int, i: int, e: Endian)
    requires
        0 <= p,
        p + 8 <= c.len(),
        c.len() == d.len(),
        p <= i < p + 8,
        c[i] != d[i],
    ensures
        value64(c, p, e) != value64(d, p, e),
{
    let sc = match e {
        Endian::Little => seq![c[p], c[p + 1], c[p + 2], c[p + 3], c[p + 4], c[p + 5], c[p + 6], c[p + 7]],
        Endian::Big => seq![c[p + 7], c[p + 6], c[p + 5], c[p + 4], c[p + 3], c[p + 2], c[p + 1], c[p]],
    };
    let sd = match e {
        Endian::Little => seq![d[p], d[p + 1], d[p + 2], d[p + 3], d[p + 4], d[p + 5], d[p + 6], d[p + 7]],
        Endian::Big => seq![d[p + 7], d[p + 6], d[p + 5], d[p + 4], d[p + 3], d[p + 2], d[p + 1], d[p]],
    };
    if value64(c, p, e) == value64(d, p, e) {
        lemma_u64_le_injective(sc, sd);
        let k = match e {
            Endian::Little => i - p,
            Endian::Big => p + 7 - i,
        };
        assert(sc[k] == sd[k]);
    }
}

#[verifier::rlimit(50)]
proof fn lemma_corrupt_header_bytes(c: Seq<u8>, e: Endian, i: int, b: u8)
    requires
        0 <= i < 33,
        holds_at(c, 0, header(e)),
        c[i] != b,
    ensures
        p_header(c.update(i, b), e) matches Err(ReadError::Mismatch { field, .. }) && field
            == header_field_at(i),
{
    let d = c.update(i, b);
    lemma_header(c, e);
    assert(forall|j: int| 0 <= j < d.len() && j != i ==> d[j] == c[j]);
    if i < 4 {
        if value32(d, 0, Endian::Big) == SIGNATURE {
            lemma_u32_le_injective(d[3], d[2], d[1], d[0], c[3], c[2], c[1], c[0]);
        }
    } else if 6 <= i < 12 {
        assert(value32(d, 0, Endian::Big) == value32(c, 0, Endian::Big));
        if probe_value(d, 6) == DATA {
            lemma_u64_le_injective(
                seq![d[11], d[10], d[9], d[8], d[7], d[6], 0u8, 0u8],
                seq![c[11], c[10], c[9], c[8], c[7], c[6], 0u8, 0u8],
            );
            assert(seq![d[11], d[10], d[9], d[8], d[7], d[6], 0u8, 0u8][11 - i] == seq![
                c[11],
                c[10],
                c[9],
                c[8],
                c[7],
                c[6],
                0u8,
                0u8,
            ][11 - i]);
        }
    } else if 17 <= i < 25 {
        assert(value32(d, 0, Endian::Big) == value32(c, 0, Endian::Big));
        assert(probe_value(d, 6) == probe_value(c, 6));
        lemma_value64_differs(c, d, 17, i, e);
    } else if 25 <= i {
        assert(value32(d, 0, Endian::Big) == value32(c, 0, Endian::Big));
        assert(probe_value(d, 6) == probe_value(c, 6));
        assert(value64(d, 17, e) == value64(c, 17, e));
        lemma_value64_differs(c, d, 25, i, e);
    } else {
        assert(value32(d, 0, Endian::Big) == value32(c, 0, Endian::Big));
        assert(probe_value(d, 6) == probe_value(c, 6));
    }
}

/// Changing any byte of the header of a chunk makes reading it fail with a
/// mismatch of the field that the byte belongs to; no prototype is returned.
/// This holds of every byte string that starts with a header, and so of every
/// chunk that `chunk` describes.
pub proof fn lemma_corrupt_header(d: Seq<u8>, e: Endian, i: int, b: u8)
    requires
        holds_at(d, 0, header(e)),
        0 <= i < 33,
        d[i] != b,
    ensures
        p_chunk(d.update(i, b), e) matches Err(ReadError::Mismatch { field, .. }) && field
            == header_field_at(i),
{
    lemma_corrupt_header_bytes(d, e, i, b);
}

} // verus!
